use vstd::prelude::*;

use crate::cell::{spec_neighbor, Cell};

verus! {

/// Upper bound of the path multiplicity kept in a field entry.
pub const WAYS_CAP: u64 = 100000;

/// Distances stay below this bound: a cell that would be this far from a
/// goal, or farther, gets no entry. Cells cut off from every goal otherwise
/// keep raising each other's distance one step at a time.
pub const MAX_DISTANCE: u32 = 1000;

/// What the distance field knows about one cell: the number of steps to the
/// nearest goal, and how many equally short routes lead there (capped).
#[derive(Clone, Copy, Debug, PartialEq, Eq, Structural)]
pub struct FieldEntry {
    pub distance: u32,
    pub ways: u64,
}

/// The value stored for `c`, absence included.
pub open spec fn stored(f: Map<Cell, FieldEntry>, c: Cell) -> Option<FieldEntry> {
    if f.contains_key(c) {
        Some(f[c])
    } else {
        None
    }
}

/// The stored entry of the neighbour of `c` in direction `i`.
pub open spec fn neighbor_entry(f: Map<Cell, FieldEntry>, c: Cell, i: int) -> Option<FieldEntry> {
    match spec_neighbor(c, i) {
        Some(n) => stored(f, n),
        None => None,
    }
}

/// Smallest distance among the stored entries of the first `k` neighbours of `c`.
pub open spec fn min_neighbor_distance(f: Map<Cell, FieldEntry>, c: Cell, k: int) -> Option<int>
    decreases k,
{
    if k <= 0 {
        None
    } else {
        let rest = min_neighbor_distance(f, c, k - 1);
        match neighbor_entry(f, c, k - 1) {
            None => rest,
            Some(e) => match rest {
                None => Some(e.distance as int),
                Some(m) => Some(if e.distance < m {
                    e.distance as int
                } else {
                    m
                }),
            },
        }
    }
}

/// Sum of the multiplicities of the first `k` neighbours of `c` whose distance is `d`.
pub open spec fn ways_at_distance(f: Map<Cell, FieldEntry>, c: Cell, d: int, k: int) -> int
    decreases k,
{
    if k <= 0 {
        0
    } else {
        ways_at_distance(f, c, d, k - 1) + match neighbor_entry(f, c, k - 1) {
            Some(e) => if e.distance == d {
                e.ways as int
            } else {
                0
            },
            None => 0,
        }
    }
}

pub open spec fn cap_ways(w: int) -> int {
    if w > WAYS_CAP {
        WAYS_CAP as int
    } else {
        w
    }
}

/// `f` with the entry of `c` set to `v`, or removed when `v` is `None`.
pub open spec fn with_entry(f: Map<Cell, FieldEntry>, c: Cell, v: Option<FieldEntry>) -> Map<
    Cell,
    FieldEntry,
> {
    match v {
        Some(e) => f.insert(c, e),
        None => f.remove(c),
    }
}

/// The value that relaxation gives `c` from its neighbours. A goal cell is at
/// distance 0, even when it is blocked as well; a blocked cell has no entry;
/// any other cell is one step further than its nearest neighbour, with the
/// routes of all its nearest neighbours. Distances stop below `MAX_DISTANCE`.
pub open spec fn relaxed(f: Map<Cell, FieldEntry>, goal: bool, blocked: bool, c: Cell) -> Option<
    FieldEntry,
> {
    if goal {
        Some(FieldEntry { distance: 0, ways: 1 })
    } else if blocked {
        None
    } else {
        match min_neighbor_distance(f, c, 4) {
            None => None,
            Some(m) => if m + 1 >= MAX_DISTANCE {
                None
            } else {
                Some(
                    FieldEntry {
                        distance: (m + 1) as u32,
                        ways: cap_ways(ways_at_distance(f, c, m, 4)) as u64,
                    },
                )
            },
        }
    }
}

/// `c` holds the value that relaxation would give it.
pub open spec fn consistent_at(
    f: Map<Cell, FieldEntry>,
    goal: spec_fn(Cell) -> bool,
    blocked: spec_fn(Cell) -> bool,
    c: Cell,
) -> bool {
    stored(f, c) == relaxed(f, goal(c), blocked(c), c)
}

/// Every cell holds its relaxed value: nothing is left to propagate.
pub open spec fn converged(
    f: Map<Cell, FieldEntry>,
    goal: spec_fn(Cell) -> bool,
    blocked: spec_fn(Cell) -> bool,
) -> bool {
    forall|c: Cell| #[trigger] consistent_at(f, goal, blocked, c)
}

/// Every entry has a multiplicity in `1..=WAYS_CAP` and a distance below `MAX_DISTANCE`.
pub open spec fn entries_wf(f: Map<Cell, FieldEntry>) -> bool {
    forall|c: Cell|
        #![trigger f[c]]
        f.contains_key(c) ==> 1 <= f[c].ways <= WAYS_CAP && f[c].distance < MAX_DISTANCE
}

/// A goal can be reached from `c` in at most `k` steps through cells that
/// are not blocked (the goal itself may be blocked).
pub open spec fn reaches_within(
    goal: spec_fn(Cell) -> bool,
    blocked: spec_fn(Cell) -> bool,
    c: Cell,
    k: nat,
) -> bool
    decreases k,
{
    if goal(c) {
        true
    } else if k == 0 || blocked(c) {
        false
    } else {
        let n0 = spec_neighbor(c, 0);
        let n1 = spec_neighbor(c, 1);
        let n2 = spec_neighbor(c, 2);
        let n3 = spec_neighbor(c, 3);
        let step = (k - 1) as nat;
        (n0 is Some && reaches_within(goal, blocked, n0->Some_0, step)) || (n1 is Some
            && reaches_within(goal, blocked, n1->Some_0, step)) || (n2 is Some && reaches_within(
            goal,
            blocked,
            n2->Some_0,
            step,
        )) || (n3 is Some && reaches_within(goal, blocked, n3->Some_0, step))
    }
}

/// A route that leaves a non-goal cell goes through one of its neighbours.
pub proof fn lemma_reaches_step(
    goal: spec_fn(Cell) -> bool,
    blocked: spec_fn(Cell) -> bool,
    c: Cell,
    k: nat,
) -> (i: int)
    requires
        reaches_within(goal, blocked, c, k),
        !goal(c),
    ensures
        0 <= i < 4,
        k > 0,
        !blocked(c),
        spec_neighbor(c, i) is Some,
        reaches_within(goal, blocked, spec_neighbor(c, i)->Some_0, (k - 1) as nat),
{
    let step = (k - 1) as nat;
    if spec_neighbor(c, 0) is Some && reaches_within(goal, blocked, spec_neighbor(c, 0)->Some_0, step) {
        0
    } else if spec_neighbor(c, 1) is Some && reaches_within(goal, blocked, spec_neighbor(c, 1)->Some_0, step) {
        1
    } else if spec_neighbor(c, 2) is Some && reaches_within(goal, blocked, spec_neighbor(c, 2)->Some_0, step) {
        2
    } else {
        3
    }
}

/// A goal within `k` steps of a neighbour of an unblocked cell is within `k + 1` of the cell.
pub proof fn lemma_reaches_through(
    goal: spec_fn(Cell) -> bool,
    blocked: spec_fn(Cell) -> bool,
    c: Cell,
    i: int,
    k: nat,
)
    requires
        0 <= i < 4,
        !blocked(c),
        spec_neighbor(c, i) is Some,
        reaches_within(goal, blocked, spec_neighbor(c, i)->Some_0, k),
    ensures
        reaches_within(goal, blocked, c, k + 1),
{
    assert(((k + 1) - 1) as nat == k);
}

/// The graph distance from `c` to the nearest goal is `d`.
pub open spec fn graph_distance_is(
    goal: spec_fn(Cell) -> bool,
    blocked: spec_fn(Cell) -> bool,
    c: Cell,
    d: nat,
) -> bool {
    reaches_within(goal, blocked, c, d) && forall|k: nat|
        k < d ==> !#[trigger] reaches_within(goal, blocked, c, k)
}

pub proof fn lemma_min_is_attained(f: Map<Cell, FieldEntry>, c: Cell, k: int)
    requires
        min_neighbor_distance(f, c, k) is Some,
    ensures
        exists|i: int|
            0 <= i < k && #[trigger] neighbor_entry(f, c, i) is Some && neighbor_entry(
                f,
                c,
                i,
            )->Some_0.distance == min_neighbor_distance(f, c, k)->Some_0,
    decreases k,
{
    let rest = min_neighbor_distance(f, c, k - 1);
    if rest is Some {
        lemma_min_is_attained(f, c, k - 1);
    }
}

pub proof fn lemma_min_is_lower_bound(f: Map<Cell, FieldEntry>, c: Cell, k: int, i: int)
    requires
        0 <= i < k,
        neighbor_entry(f, c, i) is Some,
    ensures
        min_neighbor_distance(f, c, k) is Some,
        min_neighbor_distance(f, c, k)->Some_0 <= neighbor_entry(f, c, i)->Some_0.distance,
    decreases k,
{
    if i < k - 1 {
        lemma_min_is_lower_bound(f, c, k - 1, i);
    }
}

pub proof fn lemma_min_in_range(f: Map<Cell, FieldEntry>, c: Cell, k: int)
    ensures
        min_neighbor_distance(f, c, k) matches Some(m) ==> 0 <= m <= u32::MAX,
    decreases k,
{
    if k > 0 {
        lemma_min_in_range(f, c, k - 1);
    }
}

proof fn lemma_neighbors_frame(
    f1: Map<Cell, FieldEntry>,
    f2: Map<Cell, FieldEntry>,
    c: Cell,
    d: int,
    k: int,
)
    requires
        forall|i: int| 0 <= i < 4 ==> #[trigger] neighbor_entry(f1, c, i) == neighbor_entry(f2, c, i),
        k <= 4,
    ensures
        min_neighbor_distance(f1, c, k) == min_neighbor_distance(f2, c, k),
        ways_at_distance(f1, c, d, k) == ways_at_distance(f2, c, d, k),
    decreases k,
{
    if k > 0 {
        lemma_neighbors_frame(f1, f2, c, d, k - 1);
        assert(neighbor_entry(f1, c, k - 1) == neighbor_entry(f2, c, k - 1));
    }
}

/// Relaxation of `c` reads only the entries of its neighbours.
pub proof fn lemma_relaxed_frame(
    f1: Map<Cell, FieldEntry>,
    f2: Map<Cell, FieldEntry>,
    goal: bool,
    blocked: bool,
    c: Cell,
)
    requires
        forall|i: int| 0 <= i < 4 ==> #[trigger] neighbor_entry(f1, c, i) == neighbor_entry(f2, c, i),
    ensures
        relaxed(f1, goal, blocked, c) == relaxed(f2, goal, blocked, c),
{
    lemma_neighbors_frame(f1, f2, c, 0, 4);
    if let Some(m) = min_neighbor_distance(f1, c, 4) {
        lemma_neighbors_frame(f1, f2, c, m, 4);
    }
}

/// Below the smallest neighbour distance there are no routes.
pub proof fn lemma_no_ways_below_min(f: Map<Cell, FieldEntry>, c: Cell, d: int, k: int)
    requires
        match min_neighbor_distance(f, c, k) {
            None => true,
            Some(m) => d < m,
        },
    ensures
        ways_at_distance(f, c, d, k) == 0,
    decreases k,
{
    if k > 0 {
        let rest = min_neighbor_distance(f, c, k - 1);
        match rest {
            Some(m) => {
                assert(min_neighbor_distance(f, c, k)->Some_0 <= m);
            },
            None => {},
        }
        lemma_no_ways_below_min(f, c, d, k - 1);
    }
}

/// The routes at the smallest neighbour distance count at least one.
pub proof fn lemma_ways_at_min_positive(f: Map<Cell, FieldEntry>, c: Cell, k: int)
    requires
        entries_wf(f),
        min_neighbor_distance(f, c, k) is Some,
    ensures
        ways_at_distance(f, c, min_neighbor_distance(f, c, k)->Some_0, k) >= 1,
{
    let m = min_neighbor_distance(f, c, k)->Some_0;
    lemma_min_is_attained(f, c, k);
    let i = choose|i: int|
        0 <= i < k && #[trigger] neighbor_entry(f, c, i) is Some && neighbor_entry(
            f,
            c,
            i,
        )->Some_0.distance == m;
    lemma_ways_nonneg_and_term(f, c, m, k, i);
}

proof fn lemma_ways_nonneg_and_term(f: Map<Cell, FieldEntry>, c: Cell, d: int, k: int, i: int)
    requires
        entries_wf(f),
        0 <= i < k,
        neighbor_entry(f, c, i) is Some,
        neighbor_entry(f, c, i)->Some_0.distance == d,
    ensures
        ways_at_distance(f, c, d, k) >= 1,
    decreases k,
{
    let n = spec_neighbor(c, k - 1);
    if n is Some && f.contains_key(n->Some_0) {
        assert(f[n->Some_0].ways >= 1);
    }
    if i < k - 1 {
        lemma_ways_nonneg_and_term(f, c, d, k - 1, i);
    } else {
        lemma_ways_nonneg(f, c, d, k - 1);
        let m = spec_neighbor(c, i)->Some_0;
        assert(f[m].ways >= 1);
    }
}

pub proof fn lemma_ways_nonneg(f: Map<Cell, FieldEntry>, c: Cell, d: int, k: int)
    ensures
        ways_at_distance(f, c, d, k) >= 0,
    decreases k,
{
    if k > 0 {
        lemma_ways_nonneg(f, c, d, k - 1);
    }
}

/// Relaxation keeps entries well formed.
pub proof fn lemma_relaxed_wf(f: Map<Cell, FieldEntry>, goal: bool, blocked: bool, c: Cell)
    requires
        entries_wf(f),
    ensures
        relaxed(f, goal, blocked, c) matches Some(e) ==> 1 <= e.ways <= WAYS_CAP && e.distance
            < MAX_DISTANCE,
{
    lemma_min_in_range(f, c, 4);
    if !goal && !blocked && min_neighbor_distance(f, c, 4) is Some {
        lemma_ways_at_min_positive(f, c, 4);
    }
}

proof fn lemma_entry_reaches(
    f: Map<Cell, FieldEntry>,
    goal: spec_fn(Cell) -> bool,
    blocked: spec_fn(Cell) -> bool,
    c: Cell,
)
    requires
        converged(f, goal, blocked),
        f.contains_key(c),
    ensures
        reaches_within(goal, blocked, c, f[c].distance as nat),
    decreases f[c].distance,
{
    assert(consistent_at(f, goal, blocked, c));
    lemma_min_in_range(f, c, 4);
    if !goal(c) {
        let m = min_neighbor_distance(f, c, 4)->Some_0;
        lemma_min_is_attained(f, c, 4);
        let i = choose|i: int|
            0 <= i < 4 && #[trigger] neighbor_entry(f, c, i) is Some && neighbor_entry(
                f,
                c,
                i,
            )->Some_0.distance == m;
        let n = spec_neighbor(c, i)->Some_0;
        lemma_entry_reaches(f, goal, blocked, n);
        lemma_reaches_through(goal, blocked, c, i, (f[c].distance - 1) as nat);
    }
}

proof fn lemma_reach_gives_entry(
    f: Map<Cell, FieldEntry>,
    goal: spec_fn(Cell) -> bool,
    blocked: spec_fn(Cell) -> bool,
    c: Cell,
    k: nat,
)
    requires
        converged(f, goal, blocked),
        reaches_within(goal, blocked, c, k),
        k < MAX_DISTANCE,
    ensures
        f.contains_key(c),
        f[c].distance <= k,
    decreases k,
{
    assert(consistent_at(f, goal, blocked, c));
    lemma_min_in_range(f, c, 4);
    if !goal(c) {
        let i = lemma_reaches_step(goal, blocked, c, k);
        let n = spec_neighbor(c, i)->Some_0;
        lemma_reach_gives_entry(f, goal, blocked, n, (k - 1) as nat);
        lemma_min_is_lower_bound(f, c, 4, i);
    }
}

/// In a converged field, a cell's entry gives its graph distance to the
/// nearest goal, and a cell with no entry has no goal within reach.
pub proof fn lemma_converged_is_graph_distance(
    f: Map<Cell, FieldEntry>,
    goal: spec_fn(Cell) -> bool,
    blocked: spec_fn(Cell) -> bool,
    c: Cell,
)
    requires
        converged(f, goal, blocked),
    ensures
        f.contains_key(c) ==> graph_distance_is(goal, blocked, c, f[c].distance as nat),
        forall|k: nat| k < MAX_DISTANCE && #[trigger] reaches_within(goal, blocked, c, k) ==> f.contains_key(c),
{
    assert(consistent_at(f, goal, blocked, c));
    lemma_min_in_range(f, c, 4);
    if f.contains_key(c) {
        lemma_entry_reaches(f, goal, blocked, c);
        assert forall|k: nat| k < f[c].distance implies !#[trigger] reaches_within(
            goal,
            blocked,
            c,
            k,
        ) by {
            if reaches_within(goal, blocked, c, k) {
                lemma_reach_gives_entry(f, goal, blocked, c, k);
            }
        }
    }
    assert forall|k: nat| k < MAX_DISTANCE && #[trigger] reaches_within(goal, blocked, c, k) implies f.contains_key(
        c,
    ) by {
        lemma_reach_gives_entry(f, goal, blocked, c, k);
    }
}

/// In a converged field, a blocked cell that is not a goal has no entry.
pub proof fn lemma_converged_blocked_has_no_entry(
    f: Map<Cell, FieldEntry>,
    goal: spec_fn(Cell) -> bool,
    blocked: spec_fn(Cell) -> bool,
    c: Cell,
)
    requires
        converged(f, goal, blocked),
        blocked(c),
        !goal(c),
    ensures
        !f.contains_key(c),
{
    assert(consistent_at(f, goal, blocked, c));
}

/// In a converged field, the multiplicity of a non-goal cell is the capped
/// sum of the multiplicities of its neighbours one step nearer the goal.
pub proof fn lemma_converged_ways_conserved(
    f: Map<Cell, FieldEntry>,
    goal: spec_fn(Cell) -> bool,
    blocked: spec_fn(Cell) -> bool,
    c: Cell,
)
    requires
        converged(f, goal, blocked),
        f.contains_key(c),
        !goal(c),
    ensures
        f[c].distance >= 1,
        f[c].ways == cap_ways(ways_at_distance(f, c, f[c].distance - 1, 4)),
{
    assert(consistent_at(f, goal, blocked, c));
    lemma_min_in_range(f, c, 4);
    lemma_ways_nonneg(f, c, f[c].distance - 1, 4);
}

proof fn lemma_reach_grows_with_goals(
    goal1: spec_fn(Cell) -> bool,
    goal2: spec_fn(Cell) -> bool,
    blocked: spec_fn(Cell) -> bool,
    c: Cell,
    k: nat,
)
    requires
        forall|x: Cell| #[trigger] goal1(x) ==> goal2(x),
        reaches_within(goal1, blocked, c, k),
    ensures
        reaches_within(goal2, blocked, c, k),
    decreases k,
{
    if !goal1(c) {
        let i = lemma_reaches_step(goal1, blocked, c, k);
        let n = spec_neighbor(c, i)->Some_0;
        lemma_reach_grows_with_goals(goal1, goal2, blocked, n, (k - 1) as nat);
        if !goal2(c) {
            lemma_reaches_through(goal2, blocked, c, i, (k - 1) as nat);
        }
    }
}

/// Adding goal cells never lengthens a converged distance: every cell that
/// had an entry before still has one, at most as far.
pub proof fn lemma_more_goals_never_farther(
    f1: Map<Cell, FieldEntry>,
    f2: Map<Cell, FieldEntry>,
    goal1: spec_fn(Cell) -> bool,
    goal2: spec_fn(Cell) -> bool,
    blocked: spec_fn(Cell) -> bool,
    c: Cell,
)
    requires
        converged(f1, goal1, blocked),
        converged(f2, goal2, blocked),
        forall|x: Cell| #[trigger] goal1(x) ==> goal2(x),
        f1.contains_key(c),
    ensures
        f2.contains_key(c),
        f2[c].distance <= f1[c].distance,
{
    assert(consistent_at(f1, goal1, blocked, c));
    lemma_min_in_range(f1, c, 4);
    lemma_entry_reaches(f1, goal1, blocked, c);
    lemma_reach_grows_with_goals(goal1, goal2, blocked, c, f1[c].distance as nat);
    lemma_reach_gives_entry(f2, goal2, blocked, c, f1[c].distance as nat);
}

} // verus!
