use rand::seq::SliceRandom;
use vstd::prelude::*;

use crate::cell::{
    footprint_fits, key_of, lemma_push_distinct, lemma_key_of_injective, lemma_neighbor_opposite, move_dx, move_dy,
    opposite, spec_neighbor, Cell, Footprint,
};
use crate::chunks::GeneratedChunks;
use crate::field::{
    cap_ways, consistent_at, converged, entries_wf, graph_distance_is, lemma_more_goals_never_farther,
    lemma_converged_is_graph_distance, lemma_min_in_range, lemma_min_is_attained,
    lemma_min_is_lower_bound, lemma_no_ways_below_min, lemma_relaxed_frame, lemma_relaxed_wf,
    lemma_ways_nonneg, min_neighbor_distance, neighbor_entry, reaches_within, relaxed, stored,
    ways_at_distance, with_entry, FieldEntry, MAX_DISTANCE, WAYS_CAP,
};
use crate::detect::{
    added_after, covers, footprint_before_change, last_update, lemma_concat_contains, lemma_concat_distinct,
    lemma_occurrences_concat, lemma_occurrences_distinct, occurrences,
    touched_by_updates, MapUpdate,
};
use crate::queue::{DirtyEntry, DirtyQueue};
use crate::relax::{
    idle, lemma_run_idle, lemma_run_rest, lemma_run_split, lemma_spread_contains, lowest_waiting,
    relax_run, relax_step, spread, FieldState,
};
use crate::tile_map::{footprint_for, TileMap};

verus! {

broadcast use {vstd::std_specs::hash::group_hash_axioms, vstd::seq_lib::lemma_seq_contains_after_push};

/// Some entity standing on `c` is in `marked`.
pub open spec fn marked_at(tm: TileMap, marked: Set<u64>, c: Cell) -> bool {
    exists|e: u64| #[trigger] tm.occupants(c).contains(e) && marked.contains(e)
}

/// The cells standing as goals, as a predicate.
pub open spec fn marked_fn(tm: TileMap, marked: Set<u64>) -> spec_fn(Cell) -> bool {
    |c: Cell| marked_at(tm, marked, c)
}

/// The distance field, dirty queue and footprint tracker of one goal kind.
///
/// A cell that holds both a goal and a blocking entity counts as a goal, at
/// distance 0: goal membership is checked first.
pub struct Pathfinding {
    closest: std::collections::HashMap<i64, FieldEntry>,
    updates: DirtyQueue,
    prev: std::collections::HashMap<u64, Footprint>,
}

/// A step toward the nearest goal: the move to make, and the distance to the
/// goal after making it.
#[derive(Clone, Copy, Debug, PartialEq, Eq, Structural)]
pub struct Direction {
    pub dir: Cell,
    pub distance: u32,
}

/// Sum of the weights of `s`.
pub open spec fn total_weight(s: Seq<(usize, u64)>) -> int
    decreases s.len(),
{
    if s.len() == 0 {
        0
    } else {
        total_weight(s.drop_last()) + s.last().1
    }
}

/// Relies on rand's `SliceRandom::choose_weighted` (through `WeightedIndex`),
/// drawing from the thread-local generator: it fails only when the slice is
/// empty or every weight is zero, and never picks an item of weight zero.
/// Integer weights whose sum overflows would panic, hence the bound.
/// (`thread_rng` itself panics only when the operating system cannot seed it.)
#[verifier::external_body]
fn choose_weighted(options: &Vec<(usize, u64)>) -> (r: Option<usize>)
    requires
        total_weight(options@) <= u64::MAX,
    ensures
        r is None ==> forall|j: int| 0 <= j < options@.len() ==> #[trigger] options@[j].1 == 0,
        r matches Some(k) ==> exists|j: int|
            0 <= j < options@.len() && #[trigger] options@[j].1 > 0 && options@[j].0 == k,
{
    options.choose_weighted(&mut rand::thread_rng(), |o| o.1).ok().map(|o| o.0)
}

/// Move `i` from `from` leads to a neighbour with an entry at the smallest
/// distance found around `from`.
pub open spec fn is_nearest_step(f: Map<Cell, FieldEntry>, from: Cell, i: int) -> bool {
    &&& 0 <= i < 4
    &&& neighbor_entry(f, from, i) is Some
    &&& min_neighbor_distance(f, from, 4) is Some
    &&& neighbor_entry(f, from, i)->Some_0.distance == min_neighbor_distance(f, from, 4)->Some_0
}

/// (direction, multiplicity) of the neighbours of `from`, among the first
/// `k` directions, whose entry lies at distance `m`, in direction order.
pub open spec fn options_at(f: Map<Cell, FieldEntry>, from: Cell, m: int, k: int) -> Seq<
    (usize, u64),
>
    decreases k,
{
    if k <= 0 {
        Seq::empty()
    } else {
        let rest = options_at(f, from, m, k - 1);
        match neighbor_entry(f, from, k - 1) {
            Some(e) => if e.distance == m {
                rest.push(((k - 1) as usize, e.ways))
            } else {
                rest
            },
            None => rest,
        }
    }
}

/// The neighbours of `from` at the smallest distance around it, with their
/// multiplicities; empty when no neighbour has an entry.
pub open spec fn nearest_options_of(f: Map<Cell, FieldEntry>, from: Cell) -> Seq<(usize, u64)> {
    match min_neighbor_distance(f, from, 4) {
        None => Seq::empty(),
        Some(m) => options_at(f, from, m, 4),
    }
}

proof fn lemma_total_weight_bound(s: Seq<(usize, u64)>)
    requires
        forall|j: int| 0 <= j < s.len() ==> #[trigger] s[j].1 <= WAYS_CAP,
    ensures
        total_weight(s) <= s.len() * WAYS_CAP,
    decreases s.len(),
{
    if s.len() > 0 {
        assert(forall|j: int| 0 <= j < s.drop_last().len() ==> #[trigger] s.drop_last()[j] == s[j]);
        lemma_total_weight_bound(s.drop_last());
        assert(s.last().1 <= WAYS_CAP);
    }
}

/// True when some element of `v` is in `set`.
fn any_member(v: &Vec<u64>, set: &std::collections::HashSet<u64>) -> (r: bool)
    ensures
        r == exists|e: u64| #[trigger] v@.contains(e) && set@.contains(e),
{
    let mut i: usize = 0;
    while i < v.len()
        invariant
            i <= v@.len(),
            forall|j: int| 0 <= j < i ==> !set@.contains(#[trigger] v@[j]),
        decreases v.len() - i,
    {
        if set.contains(&v[i]) {
            assert(v@.contains(v@[i as int]));
            return true;
        }
        i = i + 1;
    }
    assert forall|e: u64| #[trigger] v@.contains(e) implies !set@.contains(e) by {
        let j = choose|j: int| 0 <= j < v@.len() && v@[j] == e;
    }
    false
}

/// Some entity standing on `c` is in `marked`.
fn is_marked(tm: &TileMap, marked: &std::collections::HashSet<u64>, c: Cell) -> (r: bool)
    requires
        tm.wf(),
    ensures
        r == marked_at(*tm, marked@, c),
{
    let v = tm.entities_at(c);
    let r = any_member(&v, marked);
    proof {
        if r {
            let e = choose|e: u64| #[trigger] v@.contains(e) && marked@.contains(e);
            assert(tm.occupants(c).contains(e));
        }
        if marked_at(*tm, marked@, c) {
            let e = choose|e: u64| #[trigger] tm.occupants(c).contains(e) && marked@.contains(e);
            assert(v@.contains(e));
        }
    }
    r
}

impl Pathfinding {
    /// The distance field: each cell's entry.
    pub closed spec fn field(&self) -> Map<Cell, FieldEntry> {
        Map::new(
            |c: Cell| self.closest@.contains_key(key_of(c)),
            |c: Cell| self.closest@[key_of(c)],
        )
    }

    /// The cells waiting for re-evaluation.
    pub closed spec fn queue(&self) -> DirtyQueue {
        self.updates
    }

    /// The field and the waiting cells.
    pub open spec fn state(&self) -> FieldState {
        FieldState {
            field: self.field(),
            waiting: Map::new(|p: int| true, |p: int| self.queue().waiting(p)),
        }
    }

    /// The footprint on file for `e`.
    pub closed spec fn footprint_on_file(&self, e: u64) -> Option<Footprint> {
        if self.prev@.contains_key(e) {
            Some(self.prev@[e])
        } else {
            None
        }
    }

    pub closed spec fn wf(&self) -> bool {
        &&& entries_wf(self.field())
        &&& self.updates.wf()
        &&& forall|e: u64| #[trigger] self.prev@.contains_key(e) ==> crate::cell::footprint_fits(self.prev@[e])
    }

    pub fn new() -> (r: Pathfinding)
        ensures
            r.wf(),
            r.field() == Map::<Cell, FieldEntry>::empty(),
            r.queue().spec_is_empty(),
            forall|e: u64| #[trigger] r.footprint_on_file(e) is None,
    {
        let r = Pathfinding {
            closest: std::collections::HashMap::new(),
            updates: DirtyQueue::new(),
            prev: std::collections::HashMap::new(),
        };
        assert(r.field() =~= Map::<Cell, FieldEntry>::empty());
        r
    }

    /// The stored entry of `c`.
    pub fn get(&self, c: Cell) -> (r: Option<FieldEntry>)
        ensures
            r == stored(self.field(), c),
    {
        match self.closest.get(&c.key()) {
            Some(e) => Some(*e),
            None => None,
        }
    }

    /// The cells waiting for re-evaluation.
    pub fn dirty(&self) -> (r: &DirtyQueue)
        ensures
            *r == self.queue(),
    {
        &self.updates
    }

    /// True when no cell waits for re-evaluation.
    pub fn queue_is_empty(&self) -> (r: bool)
        requires
            self.wf(),
        ensures
            r == self.queue().spec_is_empty(),
    {
        self.updates.is_empty()
    }

    /// The value relaxation gives `c`: distance 0 on a goal, nothing on a
    /// blocked cell, else one step past the nearest neighbour entry.
    fn relax_cell(
        &self,
        c: Cell,
        tile_map: &TileMap,
        searching_for: &std::collections::HashSet<u64>,
        blocking: &std::collections::HashSet<u64>,
    ) -> (r: Option<FieldEntry>)
        requires
            tile_map.wf(),
            self.wf(),
        ensures
            r == relaxed(
                self.field(),
                marked_at(*tile_map, searching_for@, c),
                marked_at(*tile_map, blocking@, c),
                c,
            ),
    {
        if is_marked(tile_map, searching_for, c) {
            return Some(FieldEntry { distance: 0, ways: 1 });
        }
        if is_marked(tile_map, blocking, c) {
            return None;
        }
        let ghost f = self.field();
        let mut best: Option<(u32, u64)> = None;
        let mut i: usize = 0;
        while i < 4
            invariant
                self.wf(),
                f == self.field(),
                i <= 4,
                best == match min_neighbor_distance(f, c, i as int) {
                    None => None,
                    Some(m) => Some((m as u32, cap_ways(ways_at_distance(f, c, m, i as int)) as u64)),
                },
            decreases 4 - i,
        {
            proof {
                lemma_min_in_range(f, c, i as int);
                lemma_min_in_range(f, c, i + 1);
                if min_neighbor_distance(f, c, i as int) is Some {
                    lemma_ways_nonneg(f, c, min_neighbor_distance(f, c, i as int)->Some_0, i as int);
                }
            }
            match c.neighbor(i) {
                Some(n) => {
                    match self.get(n) {
                        Some(e) => {
                            assert(f.contains_key(n));
                            assert(1 <= f[n].ways <= WAYS_CAP);
                            assert(neighbor_entry(f, c, i as int) == Some(e));
                            match best {
                                None => {
                                    proof { lemma_no_ways_below_min(f, c, e.distance as int, i as int); }
                                    best = Some((e.distance, e.ways));
                                },
                                Some((m, w)) => {
                                    if e.distance < m {
                                        proof { lemma_no_ways_below_min(f, c, e.distance as int, i as int); }
                                        best = Some((e.distance, e.ways));
                                    } else if e.distance == m {
                                        let sum = w + e.ways;
                                        best = Some((m, if sum > WAYS_CAP {
                                            WAYS_CAP
                                        } else {
                                            sum
                                        }));
                                    }
                                },
                            }
                        },
                        None => {},
                    }
                },
                None => {},
            }
            i = i + 1;
        }
        proof {
            lemma_min_in_range(f, c, 4);
        }
        match best {
            None => None,
            Some((m, w)) => {
                if m >= MAX_DISTANCE - 1 {
                    None
                } else {
                    Some(FieldEntry { distance: m + 1, ways: w })
                }
            },
        }
    }

    /// The neighbours of `from` with an entry at the smallest distance
    /// around it, in direction order, each as (direction, multiplicity): what
    /// `pathfind` draws from.
    pub fn nearest_options(&self, from: Cell) -> (r: Vec<(usize, u64)>)
        requires
            self.wf(),
        ensures
            r@ == nearest_options_of(self.field(), from),
            r@.len() <= 4,
            r@.len() > 0 <==> min_neighbor_distance(self.field(), from, 4) is Some,
            forall|j: int|
                0 <= j < r@.len() ==> #[trigger] is_nearest_step(self.field(), from, r@[j].0 as int)
                    && 1 <= r@[j].1 <= WAYS_CAP && r@[j].1 == neighbor_entry(
                    self.field(),
                    from,
                    r@[j].0 as int,
                )->Some_0.ways,
    {
        let ghost f = self.field();
        let mut closest_distance: Option<u32> = None;
        let mut i: usize = 0;
        while i < 4
            invariant
                f == self.field(),
                i <= 4,
                closest_distance == match min_neighbor_distance(f, from, i as int) {
                    None => None,
                    Some(m) => Some(m as u32),
                },
            decreases 4 - i,
        {
            proof {
                lemma_min_in_range(f, from, i as int);
                lemma_min_in_range(f, from, i + 1);
            }
            match from.neighbor(i) {
                Some(n) => match self.get(n) {
                    Some(e) => {
                        closest_distance = match closest_distance {
                            None => Some(e.distance),
                            Some(m) => Some(if e.distance < m {
                                e.distance
                            } else {
                                m
                            }),
                        };
                    },
                    None => {},
                },
                None => {},
            }
            i = i + 1;
        }
        let m = match closest_distance {
            None => {
                return Vec::new();
            },
            Some(m) => m,
        };
        proof {
            lemma_min_is_attained(f, from, 4);
        }
        let ghost k = choose|k: int|
            0 <= k < 4 && #[trigger] neighbor_entry(f, from, k) is Some && neighbor_entry(
                f,
                from,
                k,
            )->Some_0.distance == m;
        let mut options: Vec<(usize, u64)> = Vec::new();
        let mut i: usize = 0;
        while i < 4
            invariant
                self.wf(),
                f == self.field(),
                i <= 4,
                min_neighbor_distance(f, from, 4) == Some(m as int),
                0 <= k < 4,
                is_nearest_step(f, from, k),
                options@ == options_at(f, from, m as int, i as int),
                options@.len() <= i,
                i > k ==> options@.len() > 0,
                forall|j: int|
                    0 <= j < options@.len() ==> #[trigger] is_nearest_step(
                        f,
                        from,
                        options@[j].0 as int,
                    ) && 1 <= options@[j].1 <= WAYS_CAP && options@[j].1 == neighbor_entry(
                        f,
                        from,
                        options@[j].0 as int,
                    )->Some_0.ways,
            decreases 4 - i,
        {
            let ghost start = options@;
            match from.neighbor(i) {
                Some(n) => match self.get(n) {
                    Some(e) => {
                        assert(neighbor_entry(f, from, i as int) == Some(e));
                        if e.distance == m {
                            assert(f.contains_key(n));
                            assert(1 <= f[n].ways <= WAYS_CAP);
                            options.push((i, e.ways));
                            assert(options@.drop_last() == start);
                        }
                    },
                    None => {},
                },
                None => {},
            }
            proof {
                if i as int == k {
                    assert(neighbor_entry(f, from, k) is Some);
                    assert(options@.len() == start.len() + 1);
                }
                assert forall|j: int|
                    0 <= j < options@.len() implies #[trigger] is_nearest_step(
                    f,
                    from,
                    options@[j].0 as int,
                ) && 1 <= options@[j].1 <= WAYS_CAP && options@[j].1 == neighbor_entry(
                    f,
                    from,
                    options@[j].0 as int,
                )->Some_0.ways by {
                    if j < start.len() {
                        assert(options@[j] == start[j]);
                        assert(is_nearest_step(f, from, start[j].0 as int));
                    }
                }
            }
            i = i + 1;
        }
        options
    }

    /// A step toward the nearest goal from `from`: a move to one of
    /// `nearest_options(from)`, drawn at random in proportion to the
    /// multiplicities listed there; `None` when no neighbour has an entry.
    pub fn pathfind(&self, from: Cell) -> (r: Option<Direction>)
        requires
            self.wf(),
        ensures
            r is None <==> min_neighbor_distance(self.field(), from, 4) is None,
            r matches Some(d) ==> exists|j: int|
                0 <= j < nearest_options_of(self.field(), from).len() && d.dir.x == move_dx(
                    #[trigger] nearest_options_of(self.field(), from)[j].0 as int,
                ) && d.dir.y == move_dy(nearest_options_of(self.field(), from)[j].0 as int),
            r matches Some(d) ==> exists|i: int|
                #[trigger] is_nearest_step(self.field(), from, i) && d.dir.x == move_dx(i) && d.dir.y
                    == move_dy(i) && d.distance == min_neighbor_distance(self.field(), from, 4)->Some_0
                    + 1,
    {
        let ghost f = self.field();
        let options = self.nearest_options(from);
        if options.len() == 0 {
            return None;
        }
        proof {
            assert forall|j: int| 0 <= j < options@.len() implies #[trigger] options@[j].1 <= WAYS_CAP by {
                assert(is_nearest_step(f, from, options@[j].0 as int));
            }
            lemma_total_weight_bound(options@);
            assert(is_nearest_step(f, from, options@[0].0 as int));
            assert(options@[0].1 > 0);
        }
        let dir_index = match choose_weighted(&options) {
            Some(j) => j,
            None => {
                return None;
            },
        };
        let ghost j = choose|j: int|
            0 <= j < options@.len() && #[trigger] options@[j].1 > 0 && options@[j].0 == dir_index;
        assert(is_nearest_step(f, from, options@[j].0 as int));
        let n = from.neighbor(dir_index).unwrap();
        let e = self.get(n).unwrap();
        proof {
            lemma_min_in_range(f, from, 4);
        }
        let dir = Cell::move_direction(dir_index);
        Some(Direction { dir, distance: e.distance + 1 })
    }

    /// Every generated cell that does not wait in the queue holds the value
    /// that relaxation gives it under the current goals and blockers.
    pub open spec fn settled(
        &self,
        tile_map: TileMap,
        searching_for: Set<u64>,
        blocking: Set<u64>,
        chunks: GeneratedChunks,
    ) -> bool {
        forall|c: Cell|
            #![trigger chunks.generated(c)]
            chunks.generated(c) && !self.queue().holds(c) ==> consistent_at(
                self.field(),
                marked_fn(tile_map, searching_for),
                marked_fn(tile_map, blocking),
                c,
            )
    }

    /// Re-evaluates the next waiting cell: stores its relaxed value and, when
    /// that value changed, queues its generated neighbours one priority
    /// further. Returns the entry taken, `None` when nothing waits.
    fn relax_next(
        &mut self,
        tile_map: &TileMap,
        searching_for: &std::collections::HashSet<u64>,
        blocking: &std::collections::HashSet<u64>,
        generated_chunks: &GeneratedChunks,
    ) -> (r: Option<DirtyEntry>)
        requires
            tile_map.wf(),
            old(self).wf(),
        ensures
            final(self).wf(),
            final(self).prev@ == old(self).prev@,
            r is None <==> old(self).queue().spec_is_empty(),
            r is None ==> final(self).field() == old(self).field() && final(self).queue().spec_is_empty()
                && final(self).state() == old(self).state(),
            r matches Some(e) ==> {
                let q0 = old(self).queue();
                let new = relaxed(
                    old(self).field(),
                    marked_at(*tile_map, searching_for@, e.cell),
                    marked_at(*tile_map, blocking@, e.cell),
                    e.cell,
                );
                let changed = new != stored(old(self).field(), e.cell);
                &&& q0.waiting(e.priority as int).len() > 0
                &&& e.cell == q0.waiting(e.priority as int).last()
                &&& forall|q: int| q < e.priority ==> #[trigger] q0.waiting(q).len() == 0
                &&& final(self).field() == with_entry(old(self).field(), e.cell, new)
                &&& forall|q: int| #[trigger]
                    final(self).queue().waiting(q) == {
                        let after_pop = if q == e.priority {
                            q0.waiting(q).drop_last()
                        } else {
                            q0.waiting(q)
                        };
                        if changed && q == e.priority + 1 {
                            after_pop + spread(e.cell, *generated_chunks, 4)
                        } else {
                            after_pop
                        }
                    }
            },
            old(self).settled(*tile_map, searching_for@, blocking@, *generated_chunks) ==> final(self).settled(*tile_map, searching_for@, blocking@, *generated_chunks),
            final(self).state() == relax_step(
                old(self).state(),
                marked_fn(*tile_map, searching_for@),
                marked_fn(*tile_map, blocking@),
                *generated_chunks,
            ),
    {
        let ghost before = *self;
        let ghost goal = marked_fn(*tile_map, searching_for@);
        let ghost blocked = marked_fn(*tile_map, blocking@);
        let update = match self.updates.pop() {
            None => {
                assert(self.field() =~= before.field());
                assert(idle(before.state().waiting));
                reveal(relax_step);
                assert forall|p: int| #[trigger] self.state().waiting[p] == before.state().waiting[p] by {
                    assert(self.queue().waiting(p) =~= before.queue().waiting(p));
                }
                assert(self.state().waiting =~= before.state().waiting);
                return None;
            },
            Some(u) => u,
        };
        let ghost popped = self.updates;
        let c = update.cell;
        let new_closest = self.relax_cell(c, tile_map, searching_for, blocking);
        proof {
            lemma_relaxed_wf(before.field(), goal(c), blocked(c), c);
        }
        let old_closest = self.get(c);
        if old_closest != new_closest {
            match new_closest {
                Some(v) => {
                    self.closest.insert(c.key(), v);
                },
                None => {
                    self.closest.remove(&c.key());
                },
            }
            proof {
                assert forall|d: Cell|
                    #![trigger self.closest@.contains_key(key_of(d))]
                    #![trigger before.closest@.contains_key(key_of(d))]
                    key_of(d) == key_of(c) <==> d == c by {
                    lemma_key_of_injective(d, c);
                }
                assert(self.field() =~= with_entry(before.field(), c, new_closest));
            }
            let mut i: usize = 0;
            while i < 4
                invariant
                    i <= 4,
                    update.priority < usize::MAX,
                    self.updates.wf(),
                    self.field() == with_entry(before.field(), c, new_closest),
                    self.prev == before.prev,
                    forall|q: int| #[trigger]
                        self.updates.waiting(q) == if q == update.priority + 1 {
                            popped.waiting(q) + spread(c, *generated_chunks, i as int)
                        } else {
                            popped.waiting(q)
                        },
                decreases 4 - i,
            {
                match c.neighbor(i) {
                    Some(n) => {
                        if generated_chunks.is_generated(n) {
                            self.updates.push(DirtyEntry { priority: update.priority + 1, cell: n });
                        }
                    },
                    None => {},
                }
                assert forall|q: int| #[trigger]
                    self.updates.waiting(q) == if q == update.priority + 1 {
                        popped.waiting(q) + spread(c, *generated_chunks, i + 1)
                    } else {
                        popped.waiting(q)
                    } by {
                    if q == update.priority + 1 {
                        assert(self.updates.waiting(q) =~= popped.waiting(q) + spread(
                            c,
                            *generated_chunks,
                            i + 1,
                        ));
                    }
                }
                i = i + 1;
            }
        } else {
            proof {
                assert(self.field() =~= with_entry(before.field(), c, new_closest));
            }
        }
        proof {
            let f0 = before.field();
            let f1 = self.field();
            assert(entries_wf(f1)) by {
                assert forall|d: Cell| #[trigger] f1.contains_key(d) implies 1 <= f1[d].ways <= WAYS_CAP
                    && f1[d].distance < MAX_DISTANCE by {
                    if d != c {
                        assert(f0.contains_key(d));
                    }
                }
            }
            if before.settled(*tile_map, searching_for@, blocking@, *generated_chunks) {
                assert forall|d: Cell|
                    #![trigger generated_chunks.generated(d)]
                    generated_chunks.generated(d) && !self.queue().holds(d) implies consistent_at(
                        f1,
                        goal,
                        blocked,
                        d,
                    ) by {
                    // d still waits if it waited before and is not the cell just taken
                    if d != c && before.queue().holds(d) {
                        let q = choose|q: int| #[trigger] before.queue().waiting(q).contains(d);
                        let w = before.queue().waiting(q);
                        let t = choose|t: int| 0 <= t < w.len() && w[t] == d;
                        if q == update.priority {
                            assert(t < w.len() - 1);
                            assert(popped.waiting(q)[t] == d);
                            assert(popped.waiting(q).contains(d));
                        } else {
                            assert(popped.waiting(q).contains(d));
                        }
                        let wq = self.updates.waiting(q);
                        assert(wq[t] == d);
                        assert(self.queue().waiting(q).contains(d));
                    }
                    if old_closest != new_closest {
                        // the neighbours of c were queued
                        if exists|i: int| 0 <= i < 4 && #[trigger] spec_neighbor(d, i) == Some(c) {
                            let i = choose|i: int| 0 <= i < 4 && #[trigger] spec_neighbor(d, i) == Some(c);
                            lemma_neighbor_opposite(d, i);
                            lemma_spread_contains(c, *generated_chunks, 4, opposite(i));
                            let sp = spread(c, *generated_chunks, 4);
                            let t = choose|t: int| 0 <= t < sp.len() && sp[t] == d;
                            let q = update.priority + 1;
                            assert(self.updates.waiting(q)[popped.waiting(q).len() + t] == d);
                            assert(self.queue().waiting(q).contains(d));
                        }
                        if d == c {
                            assert forall|i: int| 0 <= i < 4 implies #[trigger] neighbor_entry(f0, c, i)
                                == neighbor_entry(f1, c, i) by {
                                if spec_neighbor(c, i) is Some {
                                    lemma_neighbor_opposite(c, i);
                                }
                            }
                            lemma_relaxed_frame(f0, f1, goal(c), blocked(c), c);
                        } else {
                            assert forall|i: int| 0 <= i < 4 implies #[trigger] neighbor_entry(f0, d, i)
                                == neighbor_entry(f1, d, i) by {}
                            lemma_relaxed_frame(f0, f1, goal(d), blocked(d), d);
                        }
                    } else {
                        assert(f1 =~= f0);
                    }
                }
            }
            let s0 = before.state();
            assert(!idle(s0.waiting)) by {
                assert(s0.waiting[update.priority as int].len() > 0);
            }
            let p = lowest_waiting(s0.waiting);
            assert(p == update.priority) by {
                assert(s0.waiting[update.priority as int].len() > 0);
                if p < update.priority {
                    assert(s0.waiting[p].len() == 0);
                } else if p > update.priority {
                    assert(s0.waiting[update.priority as int].len() == 0);
                }
            }
            reveal(relax_step);
            let st = relax_step(s0, goal, blocked, *generated_chunks);
            assert(self.state().field == st.field);
            assert(self.state().waiting =~= st.waiting);
        }
        Some(update)
    }

    /// Works through waiting cells, lowest priority first, until none waits
    /// or `budget` cells have been taken; what is left waits for the next
    /// call.
    pub fn pathfind_iteration(
        &mut self,
        tile_map: &TileMap,
        searching_for: &std::collections::HashSet<u64>,
        blocking: &std::collections::HashSet<u64>,
        generated_chunks: &GeneratedChunks,
        budget: usize,
    )
        requires
            tile_map.wf(),
            old(self).wf(),
        ensures
            final(self).wf(),
            forall|e: u64| #[trigger] final(self).footprint_on_file(e) == old(self).footprint_on_file(e),
            old(self).queue().spec_is_empty() ==> final(self).field() == old(self).field()
                && final(self).queue().spec_is_empty(),
            old(self).settled(*tile_map, searching_for@, blocking@, *generated_chunks) ==> final(self).settled(*tile_map, searching_for@, blocking@, *generated_chunks),
            final(self).state() == relax_run(
                old(self).state(),
                marked_fn(*tile_map, searching_for@),
                marked_fn(*tile_map, blocking@),
                *generated_chunks,
                budget as nat,
            ),
    {
        let ghost before = *self;
        let ghost goal = marked_fn(*tile_map, searching_for@);
        let ghost blocked = marked_fn(*tile_map, blocking@);
        let mut iterations_left = budget;
        while iterations_left > 0
            invariant
                self.wf(),
                tile_map.wf(),
                goal == marked_fn(*tile_map, searching_for@),
                blocked == marked_fn(*tile_map, blocking@),
                self.state() == relax_run(
                    before.state(),
                    goal,
                    blocked,
                    *generated_chunks,
                    (budget - iterations_left) as nat,
                ),
                self.prev@ == before.prev@,
                iterations_left <= budget,
                before.queue().spec_is_empty() ==> self.field() == before.field()
                    && self.queue().spec_is_empty(),
                before.settled(*tile_map, searching_for@, blocking@, *generated_chunks) ==> self.settled(
                    *tile_map,
                    searching_for@,
                    blocking@,
                    *generated_chunks,
                ),
            ensures
                self.state() == relax_run(before.state(), goal, blocked, *generated_chunks, budget as nat),
            decreases iterations_left,
        {
            let ghost pre = self.state();
            let ghost k = (budget - iterations_left) as nat;
            proof {
                lemma_run_split(before.state(), goal, blocked, *generated_chunks, k);
            }
            match self.relax_next(tile_map, searching_for, blocking, generated_chunks) {
                None => {
                    proof {
                        assert(idle(pre.waiting));
                        lemma_run_idle(pre, goal, blocked, *generated_chunks, (iterations_left - 1) as nat);
                        lemma_run_rest(before.state(), goal, blocked, *generated_chunks, (budget - iterations_left) as nat, iterations_left as nat);
                    }
                    break ;
                },
                Some(_) => {},
            }
            assert(self.state() == relax_run(before.state(), goal, blocked, *generated_chunks, k + 1));
            iterations_left = iterations_left - 1;
            assert((budget - iterations_left) as nat == k + 1);
        }
    }

    /// Queues at priority 0 the cells of `cells` that `other` does not cover.
    fn queue_cells_outside(&mut self, cells: &Vec<Cell>, other: Option<Footprint>)
        requires
            old(self).wf(),
            cells@.no_duplicates(),
        ensures
            final(self).wf(),
            final(self).field() == old(self).field(),
            final(self).prev@ == old(self).prev@,
            forall|q: int| q != 0 ==> #[trigger] final(self).queue().waiting(q) == old(self).queue().waiting(q),
            final(self).queue().waiting(0).len() >= old(self).queue().waiting(0).len(),
            final(self).queue().waiting(0).subrange(0, old(self).queue().waiting(0).len() as int)
                == old(self).queue().waiting(0),
            forall|c: Cell| #[trigger]
                final(self).queue().waiting(0).subrange(
                    old(self).queue().waiting(0).len() as int,
                    final(self).queue().waiting(0).len() as int,
                ).contains(c) <==> (cells@.contains(c) && !covers(other, c)),
            added_after(final(self).queue().waiting(0), old(self).queue().waiting(0).len() as int).no_duplicates(),
    {
        let ghost start = self.updates.waiting(0);
        let mut i: usize = 0;
        while i < cells.len()
            invariant
                self.wf(),
                self.field() == old(self).field(),
                self.prev@ == old(self).prev@,
                start == old(self).queue().waiting(0),
                i <= cells@.len(),
                forall|q: int| q != 0 ==> #[trigger] self.updates.waiting(q) == old(self).queue().waiting(q),
                self.updates.waiting(0).len() >= start.len(),
                self.updates.waiting(0).subrange(0, start.len() as int) == start,
                forall|c: Cell| #[trigger]
                    self.updates.waiting(0).subrange(
                        start.len() as int,
                        self.updates.waiting(0).len() as int,
                    ).contains(c) <==> (cells@.subrange(0, i as int).contains(c) && !covers(other, c)),
                cells@.no_duplicates(),
                added_after(self.updates.waiting(0), start.len() as int).no_duplicates(),
            decreases cells.len() - i,
        {
            let c = cells[i];
            let ghost w = self.updates.waiting(0);
            let inside = match other {
                Some(f) => f.contains(c),
                None => false,
            };
            if !inside {
                proof {
                    let seg = w.subrange(start.len() as int, w.len() as int);
                    if seg.contains(c) {
                        assert(cells@.subrange(0, i as int).contains(c));
                        let t = choose|t: int| 0 <= t < i && cells@.subrange(0, i as int)[t] == c;
                        assert(cells@[t] == cells@[i as int]);
                    }
                    lemma_push_distinct(seg, c);
                }
                self.updates.push(DirtyEntry { priority: 0, cell: c });
                assert(self.updates.waiting(0) == w.push(c));
                assert(self.updates.waiting(0).subrange(0, start.len() as int) =~= w.subrange(0, start.len() as int));
                assert(self.updates.waiting(0).subrange(start.len() as int, self.updates.waiting(0).len() as int)
                    =~= w.subrange(start.len() as int, w.len() as int).push(c));
            }
            assert(cells@.subrange(0, i + 1) =~= cells@.subrange(0, i as int).push(c));
            assert(self.field() == old(self).field()) by {
                assert(self.field() =~= old(self).field());
            }
            i = i + 1;
        }
        assert(cells@.subrange(0, cells@.len() as int) =~= cells@);
    }

    /// Queues at priority 0 every cell covered by exactly one of `before`
    /// and `after`.
    fn queue_difference(&mut self, before: Option<Footprint>, after: Option<Footprint>)
        requires
            old(self).wf(),
            before matches Some(f) ==> footprint_fits(f),
            after matches Some(f) ==> footprint_fits(f),
        ensures
            final(self).wf(),
            final(self).field() == old(self).field(),
            final(self).prev@ == old(self).prev@,
            forall|q: int| q != 0 ==> #[trigger] final(self).queue().waiting(q) == old(self).queue().waiting(q),
            final(self).queue().waiting(0).len() >= old(self).queue().waiting(0).len(),
            final(self).queue().waiting(0).subrange(0, old(self).queue().waiting(0).len() as int)
                == old(self).queue().waiting(0),
            forall|c: Cell| #[trigger]
                final(self).queue().waiting(0).subrange(
                    old(self).queue().waiting(0).len() as int,
                    final(self).queue().waiting(0).len() as int,
                ).contains(c) <==> (covers(before, c) != covers(after, c)),
            added_after(final(self).queue().waiting(0), old(self).queue().waiting(0).len() as int).no_duplicates(),
    {
        let ghost w0 = self.updates.waiting(0);
        match before {
            Some(b) => {
                let cells = b.cells();
                self.queue_cells_outside(&cells, after);
            },
            None => {},
        }
        let ghost w1 = self.updates.waiting(0);
        assert(forall|c: Cell| #[trigger] w1.subrange(w0.len() as int, w1.len() as int).contains(c)
            <==> (covers(before, c) && !covers(after, c)));
        match after {
            Some(a) => {
                let cells = a.cells();
                self.queue_cells_outside(&cells, before);
            },
            None => {},
        }
        let ghost w2 = self.updates.waiting(0);
        proof {
            let s1 = w1.subrange(w0.len() as int, w1.len() as int);
            let s2 = w2.subrange(w1.len() as int, w2.len() as int);
            assert(w2.subrange(0, w1.len() as int) == w1);
            assert(w2.subrange(0, w0.len() as int) =~= w1.subrange(0, w0.len() as int));
            assert(w2.subrange(w0.len() as int, w2.len() as int) =~= s1 + s2);
            if before is None {
                assert(s1 =~= Seq::<Cell>::empty());
            }
            if after is None {
                assert(s2 =~= Seq::<Cell>::empty());
            }
            assert(forall|x: Cell| s1.contains(x) ==> !s2.contains(x));
            lemma_concat_distinct(s1, s2);
            assert forall|c: Cell| #[trigger] w2.subrange(w0.len() as int, w2.len() as int).contains(c)
                <==> (covers(before, c) != covers(after, c)) by {
                let s = s1 + s2;
                if s1.contains(c) {
                    let t = choose|t: int| 0 <= t < s1.len() && s1[t] == c;
                    assert(s[t] == c);
                }
                if s2.contains(c) {
                    let t = choose|t: int| 0 <= t < s2.len() && s2[t] == c;
                    assert(s[s1.len() + t] == c);
                }
                if s.contains(c) {
                    let t = choose|t: int| 0 <= t < s.len() && s[t] == c;
                    if t < s1.len() {
                        assert(s1[t] == c);
                    } else {
                        assert(s2[t - s1.len()] == c);
                    }
                }
            }
        }
    }

    /// `entity` lost its goal or blocking marker, or was destroyed: the
    /// cells of its footprint on file are queued and the footprint forgotten.
    pub fn entity_removed(&mut self, entity: u64)
        requires
            old(self).wf(),
        ensures
            final(self).wf(),
            final(self).field() == old(self).field(),
            final(self).footprint_on_file(entity) is None,
            forall|e: u64| e != entity ==> #[trigger] final(self).footprint_on_file(e) == old(self).footprint_on_file(e),
            forall|q: int| q != 0 ==> #[trigger] final(self).queue().waiting(q) == old(self).queue().waiting(q),
            final(self).queue().waiting(0).len() >= old(self).queue().waiting(0).len(),
            final(self).queue().waiting(0).subrange(0, old(self).queue().waiting(0).len() as int)
                == old(self).queue().waiting(0),
            forall|c: Cell| #[trigger]
                final(self).queue().waiting(0).subrange(
                    old(self).queue().waiting(0).len() as int,
                    final(self).queue().waiting(0).len() as int,
                ).contains(c) <==> covers(old(self).footprint_on_file(entity), c),
            added_after(final(self).queue().waiting(0), old(self).queue().waiting(0).len() as int).no_duplicates(),
    {
        let before = match self.prev.remove(&entity) {
            Some(f) => Some(f),
            None => None,
        };
        let ghost removed = *self;
        assert(before matches Some(f) ==> footprint_fits(f));
        assert(self.wf()) by {
            assert(self.field() =~= old(self).field());
            assert forall|e: u64| #[trigger] self.prev@.contains_key(e) implies footprint_fits(self.prev@[e]) by {
                assert(old(self).prev@.contains_key(e));
            }
        }
        self.queue_difference(before, None);
        assert(self.field() =~= old(self).field());
    }

    /// `entity`, carrying a goal or blocking marker, appeared, moved or
    /// changed size: the cells covered by exactly one of its footprint on
    /// file and its new footprint are queued, and the new one kept on file.
    pub fn entity_changed(&mut self, entity: u64, pos: Cell, size: Option<Cell>)
        requires
            old(self).wf(),
            footprint_fits(footprint_for(pos, size)),
        ensures
            final(self).wf(),
            final(self).field() == old(self).field(),
            final(self).footprint_on_file(entity) == Some(footprint_for(pos, size)),
            forall|e: u64| e != entity ==> #[trigger] final(self).footprint_on_file(e) == old(self).footprint_on_file(e),
            forall|q: int| q != 0 ==> #[trigger] final(self).queue().waiting(q) == old(self).queue().waiting(q),
            final(self).queue().waiting(0).len() >= old(self).queue().waiting(0).len(),
            final(self).queue().waiting(0).subrange(0, old(self).queue().waiting(0).len() as int)
                == old(self).queue().waiting(0),
            forall|c: Cell| #[trigger]
                final(self).queue().waiting(0).subrange(
                    old(self).queue().waiting(0).len() as int,
                    final(self).queue().waiting(0).len() as int,
                ).contains(c) <==> (covers(old(self).footprint_on_file(entity), c) != covers(
                    Some(footprint_for(pos, size)),
                    c,
                )),
            added_after(final(self).queue().waiting(0), old(self).queue().waiting(0).len() as int).no_duplicates(),
    {
        let sz = match size {
            Some(s) => s,
            None => Cell { x: 1, y: 1 },
        };
        let after = Footprint { position: pos, size: sz };
        let before = match self.prev.get(&entity) {
            Some(f) => Some(*f),
            None => None,
        };
        self.queue_difference(before, Some(after));
        self.prev.insert(entity, after);
        assert(self.field() =~= old(self).field());
        assert forall|e: u64| #[trigger] self.prev@.contains_key(e) implies footprint_fits(self.prev@[e]) by {
            if e != entity {
                assert(old(self).prev@.contains_key(e));
            }
        }
    }

    /// Queues the cells touched by this tick's marker changes: first the
    /// footprints of entities in `removed`, then the differences for the
    /// entities in `changed`, in order. Afterwards the tracker holds each
    /// changed entity's last footprint and none for removed ones.
    pub fn detect_map_updates(&mut self, removed: &Vec<u64>, changed: &Vec<MapUpdate>)
        requires
            old(self).wf(),
            forall|j: int|
                0 <= j < changed@.len() ==> footprint_fits(
                    footprint_for(#[trigger] changed@[j].pos, changed@[j].size),
                ),
        ensures
            final(self).wf(),
            final(self).field() == old(self).field(),
            forall|q: int| q != 0 ==> #[trigger] final(self).queue().waiting(q) == old(self).queue().waiting(q),
            final(self).queue().waiting(0).len() >= old(self).queue().waiting(0).len(),
            final(self).queue().waiting(0).subrange(0, old(self).queue().waiting(0).len() as int)
                == old(self).queue().waiting(0),
            forall|c: Cell| old(self).queue().holds(c) ==> #[trigger] final(self).queue().holds(c),
            forall|c: Cell| #[trigger]
                added_after(final(self).queue().waiting(0), old(self).queue().waiting(0).len() as int).contains(c)
                    <==> touched_by_updates(
                    |e: u64| old(self).footprint_on_file(e),
                    removed@,
                    changed@,
                    c,
                ),
            forall|e: u64| #[trigger]
                final(self).footprint_on_file(e) == match last_update(changed@, e) {
                    Some(f) => Some(f),
                    None => if removed@.contains(e) {
                        None
                    } else {
                        old(self).footprint_on_file(e)
                    },
                },
            forall|c: Cell|
                #[trigger] occurrences(
                    added_after(final(self).queue().waiting(0), old(self).queue().waiting(0).len() as int),
                    c,
                ) <= removed@.len() + changed@.len(),
    {
        let ghost w0 = self.updates.waiting(0);
        let ghost prior = |e: u64| old(self).footprint_on_file(e);
        let mut i: usize = 0;
        while i < removed.len()
            invariant
                self.wf(),
                prior == (|e: u64| old(self).footprint_on_file(e)),
                forall|c: Cell| #[trigger]
                    occurrences(added_after(self.queue().waiting(0), w0.len() as int), c) <= i,
                forall|c: Cell| #[trigger]
                    added_after(self.queue().waiting(0), w0.len() as int).contains(c) <==> exists|e: u64|
                        #[trigger] removed@.subrange(0, i as int).contains(e) && covers(prior(e), c),
                i <= removed@.len(),
                self.field() == old(self).field(),
                forall|q: int| q != 0 ==> #[trigger] self.queue().waiting(q) == old(self).queue().waiting(q),
                self.queue().waiting(0).len() >= w0.len(),
                self.queue().waiting(0).subrange(0, w0.len() as int) == w0,
                w0 == old(self).queue().waiting(0),
                forall|e: u64| #[trigger]
                    self.footprint_on_file(e) == if removed@.subrange(0, i as int).contains(e) {
                        None
                    } else {
                        old(self).footprint_on_file(e)
                    },
            decreases removed.len() - i,
        {
            let ghost w = self.updates.waiting(0);
            let ghost r = removed@[i as int];
            let ghost before_r = self.footprint_on_file(r);
            self.entity_removed(removed[i]);
            proof {
                let nw = self.queue().waiting(0);
                let seg = nw.subrange(w.len() as int, nw.len() as int);
                assert(removed@.subrange(0, i + 1) =~= removed@.subrange(0, i as int).push(r));
                assert(nw.subrange(0, w0.len() as int) =~= w.subrange(0, w0.len() as int));
                assert(added_after(nw, w0.len() as int) =~= added_after(w, w0.len() as int) + seg);
                assert forall|c: Cell| #[trigger]
                    occurrences(added_after(nw, w0.len() as int), c) <= i + 1 by {
                    lemma_occurrences_concat(added_after(w, w0.len() as int), seg, c);
                    lemma_occurrences_distinct(seg, c);
                }
                assert forall|c: Cell| #[trigger]
                    added_after(nw, w0.len() as int).contains(c) <==> exists|e: u64|
                        #[trigger] removed@.subrange(0, i + 1).contains(e) && covers(prior(e), c) by {
                    lemma_concat_contains(added_after(w, w0.len() as int), seg, c);
                    assert(removed@.subrange(0, i + 1)[i as int] == r);
                    if !removed@.subrange(0, i as int).contains(r) {
                        assert(before_r == prior(r));
                    }
                    if added_after(w, w0.len() as int).contains(c) {
                        let e = choose|e: u64| #[trigger] removed@.subrange(0, i as int).contains(e) && covers(prior(e), c);
                        let t = choose|t: int| 0 <= t < i && removed@.subrange(0, i as int)[t] == e;
                        assert(removed@.subrange(0, i + 1)[t] == e);
                        assert(removed@.subrange(0, i + 1).contains(e));
                    }
                    if seg.contains(c) {
                        assert(covers(before_r, c));
                        assert(before_r == prior(r));
                        assert(removed@.subrange(0, i + 1).contains(r) && covers(prior(r), c));
                    }
                    if exists|e: u64| #[trigger] removed@.subrange(0, i + 1).contains(e) && covers(prior(e), c) {
                        let e = choose|e: u64| #[trigger] removed@.subrange(0, i + 1).contains(e) && covers(prior(e), c);
                        if e != r || removed@.subrange(0, i as int).contains(r) {
                            assert(removed@.subrange(0, i as int).contains(e));
                        }
                    }
                }
            }
            i = i + 1;
        }
        assert(removed@.subrange(0, removed@.len() as int) =~= removed@);
        let ghost mid = *self;
        let mut j: usize = 0;
        while j < changed.len()
            invariant
                self.wf(),
                prior == (|e: u64| old(self).footprint_on_file(e)),
                forall|c: Cell| #[trigger]
                    occurrences(added_after(self.queue().waiting(0), w0.len() as int), c) <= removed@.len() + j,
                forall|e: u64| #[trigger]
                    mid.footprint_on_file(e) == if removed@.contains(e) {
                        None
                    } else {
                        prior(e)
                    },
                forall|c: Cell| #[trigger]
                    added_after(self.queue().waiting(0), w0.len() as int).contains(c) <==> (
                    (exists|e: u64| #[trigger] removed@.contains(e) && covers(prior(e), c))
                        || (exists|k: int|
                        0 <= k < j && covers(
                            #[trigger] footprint_before_change(prior, removed@, changed@, k),
                            c,
                        ) != covers(Some(footprint_for(changed@[k].pos, changed@[k].size)), c))),
                j <= changed@.len(),
                forall|k: int|
                    0 <= k < changed@.len() ==> footprint_fits(
                        footprint_for(#[trigger] changed@[k].pos, changed@[k].size),
                    ),
                self.field() == old(self).field(),
                forall|q: int| q != 0 ==> #[trigger] self.queue().waiting(q) == old(self).queue().waiting(q),
                self.queue().waiting(0).len() >= w0.len(),
                self.queue().waiting(0).subrange(0, w0.len() as int) == w0,
                w0 == old(self).queue().waiting(0),
                forall|e: u64| #[trigger]
                    self.footprint_on_file(e) == match last_update(changed@.subrange(0, j as int), e) {
                        Some(f) => Some(f),
                        None => mid.footprint_on_file(e),
                    },
            decreases changed.len() - j,
        {
            let u = changed[j];
            let ghost w = self.updates.waiting(0);
            assert(footprint_fits(footprint_for(changed@[j as int].pos, changed@[j as int].size)));
            assert(self.footprint_on_file(u.entity) == footprint_before_change(prior, removed@, changed@, j as int));
            self.entity_changed(u.entity, u.pos, u.size);
            proof {
                let nw = self.queue().waiting(0);
                let seg = nw.subrange(w.len() as int, nw.len() as int);
                let fb = footprint_before_change(prior, removed@, changed@, j as int);
                let fa = Some(footprint_for(changed@[j as int].pos, changed@[j as int].size));
                assert(changed@.subrange(0, j + 1).drop_last() =~= changed@.subrange(0, j as int));
                assert(nw.subrange(0, w0.len() as int) =~= w.subrange(0, w0.len() as int));
                assert(added_after(nw, w0.len() as int) =~= added_after(w, w0.len() as int) + seg);
                assert forall|c: Cell| #[trigger]
                    occurrences(added_after(nw, w0.len() as int), c) <= removed@.len() + j + 1 by {
                    lemma_occurrences_concat(added_after(w, w0.len() as int), seg, c);
                    lemma_occurrences_distinct(seg, c);
                }
                assert forall|c: Cell| #[trigger]
                    added_after(nw, w0.len() as int).contains(c) <==> (
                    (exists|e: u64| #[trigger] removed@.contains(e) && covers(prior(e), c))
                        || (exists|k: int|
                        0 <= k < j + 1 && covers(
                            #[trigger] footprint_before_change(prior, removed@, changed@, k),
                            c,
                        ) != covers(Some(footprint_for(changed@[k].pos, changed@[k].size)), c))) by {
                    lemma_concat_contains(added_after(w, w0.len() as int), seg, c);
                    if seg.contains(c) {
                        assert(covers(fb, c) != covers(fa, c));
                        assert(covers(footprint_before_change(prior, removed@, changed@, j as int), c) != covers(Some(footprint_for(changed@[j as int].pos, changed@[j as int].size)), c));
                    }
                    if exists|k: int|
                        0 <= k < j + 1 && covers(
                            #[trigger] footprint_before_change(prior, removed@, changed@, k),
                            c,
                        ) != covers(Some(footprint_for(changed@[k].pos, changed@[k].size)), c) {
                        let k = choose|k: int|
                            0 <= k < j + 1 && covers(
                                #[trigger] footprint_before_change(prior, removed@, changed@, k),
                                c,
                            ) != covers(Some(footprint_for(changed@[k].pos, changed@[k].size)), c);
                        if k == j {
                            assert(seg.contains(c));
                        }
                    }
                }
            }
            j = j + 1;
        }
        assert(changed@.subrange(0, changed@.len() as int) =~= changed@);
        assert forall|c: Cell| #[trigger]
            added_after(self.queue().waiting(0), w0.len() as int).contains(c) <==> touched_by_updates(
                prior,
                removed@,
                changed@,
                c,
            ) by {}
        assert forall|c: Cell| old(self).queue().holds(c) implies #[trigger] self.queue().holds(c) by {
            let q = choose|q: int| #[trigger] old(self).queue().waiting(q).contains(c);
            if q == 0 {
                let t = choose|t: int| 0 <= t < w0.len() && w0[t] == c;
                assert(self.queue().waiting(0).subrange(0, w0.len() as int)[t] == c);
                assert(self.queue().waiting(0)[t] == c);
                assert(self.queue().waiting(0).contains(c));
            } else {
                assert(self.queue().waiting(q).contains(c));
            }
        }
    }
}


/// A world change that only touches waiting cells keeps the field settled:
/// if every generated cell whose goal or blocking status differs between
/// the two worlds waits in the queue, what was settled under the first world
/// is settled under the second.
pub proof fn lemma_settled_under_changes(
    p: Pathfinding,
    tm1: TileMap,
    goals1: Set<u64>,
    blocking1: Set<u64>,
    tm2: TileMap,
    goals2: Set<u64>,
    blocking2: Set<u64>,
    chunks: GeneratedChunks,
)
    requires
        p.settled(tm1, goals1, blocking1, chunks),
        forall|c: Cell|
            #![trigger chunks.generated(c)]
            chunks.generated(c) && (marked_at(tm1, goals1, c) != marked_at(tm2, goals2, c)
                || marked_at(tm1, blocking1, c) != marked_at(tm2, blocking2, c)) ==> p.queue().holds(
                c,
            ),
    ensures
        p.settled(tm2, goals2, blocking2, chunks),
{
    assert forall|c: Cell|
        #![trigger chunks.generated(c)]
        chunks.generated(c) && !p.queue().holds(c) implies consistent_at(
            p.field(),
            marked_fn(tm2, goals2),
            marked_fn(tm2, blocking2),
            c,
        ) by {
        assert(consistent_at(p.field(), marked_fn(tm1, goals1), marked_fn(tm1, blocking1), c));
    }
}

/// Every entry of a well-formed engine has a multiplicity in `1..=WAYS_CAP`
/// and a distance below `MAX_DISTANCE`.
pub proof fn lemma_entries_bounded(p: Pathfinding)
    requires
        p.wf(),
    ensures
        entries_wf(p.field()),
{
}

/// Goal cells inside the generated region.
pub open spec fn goal_in_region(
    tm: TileMap,
    searching_for: Set<u64>,
    chunks: GeneratedChunks,
) -> spec_fn(Cell) -> bool {
    |c: Cell| marked_at(tm, searching_for, c) && chunks.generated(c)
}

/// Cells that routes may not cross: blocked cells, and every cell outside
/// the generated region.
pub open spec fn closed_or_outside(
    tm: TileMap,
    blocking: Set<u64>,
    chunks: GeneratedChunks,
) -> spec_fn(Cell) -> bool {
    |c: Cell| marked_at(tm, blocking, c) || !chunks.generated(c)
}

/// The state after the relaxer has drained the queue, with no entry outside
/// the generated region.
pub open spec fn drained(
    p: Pathfinding,
    tile_map: TileMap,
    searching_for: Set<u64>,
    blocking: Set<u64>,
    chunks: GeneratedChunks,
) -> bool {
    &&& p.settled(tile_map, searching_for, blocking, chunks)
    &&& p.queue().spec_is_empty()
    &&& forall|d: Cell| !chunks.generated(d) ==> !#[trigger] p.field().contains_key(d)
}

/// A drained field is converged for routes that stay inside the generated
/// region.
pub proof fn lemma_drained_is_converged(
    p: Pathfinding,
    tile_map: TileMap,
    searching_for: Set<u64>,
    blocking: Set<u64>,
    chunks: GeneratedChunks,
)
    requires
        drained(p, tile_map, searching_for, blocking, chunks),
    ensures
        converged(
            p.field(),
            goal_in_region(tile_map, searching_for, chunks),
            closed_or_outside(tile_map, blocking, chunks),
        ),
{
    let goal = marked_fn(tile_map, searching_for);
    let blocked = marked_fn(tile_map, blocking);
    let goal_r = goal_in_region(tile_map, searching_for, chunks);
    let blocked_r = closed_or_outside(tile_map, blocking, chunks);
    assert forall|d: Cell| #[trigger] consistent_at(p.field(), goal_r, blocked_r, d) by {
        if chunks.generated(d) {
            assert(!p.queue().holds(d)) by {
                if p.queue().holds(d) {
                    let q = choose|q: int| #[trigger] p.queue().waiting(q).contains(d);
                    assert(p.queue().waiting(q).len() == 0);
                }
            }
            assert(consistent_at(p.field(), goal, blocked, d));
        } else {
            assert(!p.field().contains_key(d));
        }
    }
}

/// Once the queue is drained, with no entry outside the generated region,
/// every entry is the graph distance from its cell to the nearest goal
/// along routes through unblocked generated cells, and every cell with such
/// a route shorter than `MAX_DISTANCE` has an entry.
pub proof fn lemma_empty_queue_gives_graph_distance(
    p: Pathfinding,
    tile_map: TileMap,
    searching_for: Set<u64>,
    blocking: Set<u64>,
    chunks: GeneratedChunks,
    c: Cell,
)
    requires
        drained(p, tile_map, searching_for, blocking, chunks),
    ensures
        p.field().contains_key(c) ==> graph_distance_is(
            goal_in_region(tile_map, searching_for, chunks),
            closed_or_outside(tile_map, blocking, chunks),
            c,
            p.field()[c].distance as nat,
        ),
        forall|k: nat|
            k < MAX_DISTANCE && #[trigger] reaches_within(
                goal_in_region(tile_map, searching_for, chunks),
                closed_or_outside(tile_map, blocking, chunks),
                c,
                k,
            ) ==> p.field().contains_key(c),
{
    lemma_drained_is_converged(p, tile_map, searching_for, blocking, chunks);
    lemma_converged_is_graph_distance(
        p.field(),
        goal_in_region(tile_map, searching_for, chunks),
        closed_or_outside(tile_map, blocking, chunks),
        c,
    );
}

/// Adding goals never lengthens a drained distance: with the same blockers
/// and region, every cell that had an entry before still has one, at most
/// as far.
pub proof fn lemma_empty_queue_more_goals_never_farther(
    p1: Pathfinding,
    p2: Pathfinding,
    tm1: TileMap,
    goals1: Set<u64>,
    tm2: TileMap,
    goals2: Set<u64>,
    blocking: Set<u64>,
    chunks: GeneratedChunks,
    c: Cell,
)
    requires
        drained(p1, tm1, goals1, blocking, chunks),
        drained(p2, tm2, goals2, blocking, chunks),
        forall|d: Cell| #[trigger] marked_at(tm1, goals1, d) ==> marked_at(tm2, goals2, d),
        forall|d: Cell| #[trigger] marked_at(tm1, blocking, d) == marked_at(tm2, blocking, d),
        p1.field().contains_key(c),
    ensures
        p2.field().contains_key(c),
        p2.field()[c].distance <= p1.field()[c].distance,
{
    lemma_drained_is_converged(p1, tm1, goals1, blocking, chunks);
    lemma_drained_is_converged(p2, tm2, goals2, blocking, chunks);
    let b1 = closed_or_outside(tm1, blocking, chunks);
    let b2 = closed_or_outside(tm2, blocking, chunks);
    assert(b1 == b2) by {
        assert forall|d: Cell| #[trigger] b1(d) == b2(d) by {
            assert(marked_at(tm1, blocking, d) == marked_at(tm2, blocking, d));
        }
        assert(b1 =~= b2);
    }
    let g1 = goal_in_region(tm1, goals1, chunks);
    let g2 = goal_in_region(tm2, goals2, chunks);
    assert forall|d: Cell| #[trigger] g1(d) implies g2(d) by {
        assert(marked_at(tm1, goals1, d));
    }
    lemma_more_goals_never_farther(p1.field(), p2.field(), g1, g2, b1, c);
}

/// Once nothing waits, a generated cell that is blocked and not a goal has
/// no entry.
pub proof fn lemma_empty_queue_blocked_has_no_entry(
    p: Pathfinding,
    tile_map: TileMap,
    searching_for: Set<u64>,
    blocking: Set<u64>,
    chunks: GeneratedChunks,
    c: Cell,
)
    requires
        p.settled(tile_map, searching_for, blocking, chunks),
        p.queue().spec_is_empty(),
        chunks.generated(c),
        marked_at(tile_map, blocking, c),
        !marked_at(tile_map, searching_for, c),
    ensures
        !p.field().contains_key(c),
{
    if p.queue().holds(c) {
        let q = choose|q: int| #[trigger] p.queue().waiting(q).contains(c);
        assert(p.queue().waiting(q).len() == 0);
    }
    assert(consistent_at(p.field(), marked_fn(tile_map, searching_for), marked_fn(tile_map, blocking), c));
}

/// Once the queue is drained, with no entry outside the generated region,
/// the multiplicity of every non-goal cell with an entry is the capped sum
/// of the multiplicities of its neighbours one step nearer the goal.
pub proof fn lemma_empty_queue_ways_conserved(
    p: Pathfinding,
    tile_map: TileMap,
    searching_for: Set<u64>,
    blocking: Set<u64>,
    chunks: GeneratedChunks,
    c: Cell,
)
    requires
        drained(p, tile_map, searching_for, blocking, chunks),
        p.field().contains_key(c),
        !marked_at(tile_map, searching_for, c),
    ensures
        p.field()[c].distance >= 1,
        p.field()[c].ways == cap_ways(ways_at_distance(p.field(), c, p.field()[c].distance - 1, 4)),
{
    if p.queue().holds(c) {
        let q = choose|q: int| #[trigger] p.queue().waiting(q).contains(c);
        assert(p.queue().waiting(q).len() == 0);
    }
    assert(consistent_at(p.field(), marked_fn(tile_map, searching_for), marked_fn(tile_map, blocking), c));
    lemma_min_in_range(p.field(), c, 4);
    lemma_ways_nonneg(p.field(), c, p.field()[c].distance - 1, 4);
}

} // verus!
