use vstd::prelude::*;

use crate::cell::{spec_neighbor, Cell};
use crate::chunks::GeneratedChunks;
use crate::field::{relaxed, stored, with_entry, FieldEntry};

verus! {

/// The neighbours of `c` in the first `k` directions that lie in the
/// generated region, in direction order.
pub open spec fn spread(c: Cell, chunks: GeneratedChunks, k: int) -> Seq<Cell>
    decreases k,
{
    if k <= 0 {
        Seq::empty()
    } else {
        let rest = spread(c, chunks, k - 1);
        match spec_neighbor(c, k - 1) {
            Some(n) => if chunks.generated(n) {
                rest.push(n)
            } else {
                rest
            },
            None => rest,
        }
    }
}

pub(crate) proof fn lemma_spread_contains(c: Cell, chunks: GeneratedChunks, k: int, j: int)
    requires
        0 <= j < k,
        spec_neighbor(c, j) is Some,
        chunks.generated(spec_neighbor(c, j)->Some_0),
    ensures
        spread(c, chunks, k).contains(spec_neighbor(c, j)->Some_0),
    decreases k,
{
    let n = spec_neighbor(c, j)->Some_0;
    let rest = spread(c, chunks, k - 1);
    if j < k - 1 {
        lemma_spread_contains(c, chunks, k - 1, j);
        let t = choose|t: int| 0 <= t < rest.len() && rest[t] == n;
        if spec_neighbor(c, k - 1) is Some && chunks.generated(spec_neighbor(c, k - 1)->Some_0) {
            assert(spread(c, chunks, k)[t] == n);
        }
    } else {
        assert(spread(c, chunks, k)[rest.len() as int] == n);
    }
}

/// What the relaxer works on: the distance field, and the cells waiting at
/// each priority.
pub struct FieldState {
    pub field: Map<Cell, FieldEntry>,
    pub waiting: Map<int, Seq<Cell>>,
}

/// `s` with `cells` added at priority 0.
pub open spec fn with_queued(s: FieldState, cells: Seq<Cell>) -> FieldState {
    FieldState { field: s.field, waiting: s.waiting.insert(0, s.waiting[0] + cells) }
}

/// Nothing waits.
pub open spec fn idle(w: Map<int, Seq<Cell>>) -> bool {
    forall|p: int| #[trigger] w[p].len() == 0
}

/// The lowest priority at which a cell waits.
pub open spec fn lowest_waiting(w: Map<int, Seq<Cell>>) -> int {
    choose|p: int| w[p].len() > 0 && forall|q: int| q < p ==> #[trigger] w[q].len() == 0
}

/// One relaxation step: the last cell added at the lowest waiting priority
/// is taken and given its relaxed value; if that value changed, its
/// generated neighbours are queued one priority further.
#[verifier::opaque]
pub open spec fn relax_step(
    s: FieldState,
    goal: spec_fn(Cell) -> bool,
    blocked: spec_fn(Cell) -> bool,
    chunks: GeneratedChunks,
) -> FieldState {
    if idle(s.waiting) {
        s
    } else {
        let p = lowest_waiting(s.waiting);
        let c = s.waiting[p].last();
        let popped = s.waiting.insert(p, s.waiting[p].drop_last());
        let new = relaxed(s.field, goal(c), blocked(c), c);
        if new == stored(s.field, c) {
            FieldState { field: s.field, waiting: popped }
        } else {
            FieldState {
                field: with_entry(s.field, c, new),
                waiting: popped.insert(p + 1, popped[p + 1] + spread(c, chunks, 4)),
            }
        }
    }
}

/// `n` relaxation steps.
pub open spec fn relax_run(
    s: FieldState,
    goal: spec_fn(Cell) -> bool,
    blocked: spec_fn(Cell) -> bool,
    chunks: GeneratedChunks,
    n: nat,
) -> FieldState
    decreases n,
{
    if n == 0 {
        s
    } else {
        relax_run(relax_step(s, goal, blocked, chunks), goal, blocked, chunks, (n - 1) as nat)
    }
}

pub(crate) proof fn lemma_run_idle(
    s: FieldState,
    goal: spec_fn(Cell) -> bool,
    blocked: spec_fn(Cell) -> bool,
    chunks: GeneratedChunks,
    n: nat,
)
    requires
        idle(s.waiting),
    ensures
        relax_run(s, goal, blocked, chunks, n) == s,
    decreases n,
{
    reveal(relax_step);
    if n > 0 {
        lemma_run_idle(s, goal, blocked, chunks, (n - 1) as nat);
    }
}

pub(crate) proof fn lemma_run_rest(
    s: FieldState,
    goal: spec_fn(Cell) -> bool,
    blocked: spec_fn(Cell) -> bool,
    chunks: GeneratedChunks,
    n: nat,
    m: nat,
)
    requires
        idle(relax_run(s, goal, blocked, chunks, n).waiting),
    ensures
        relax_run(s, goal, blocked, chunks, n + m) == relax_run(s, goal, blocked, chunks, n),
    decreases m,
{
    reveal(relax_step);
    if m > 0 {
        lemma_run_rest(s, goal, blocked, chunks, n, (m - 1) as nat);
        lemma_run_split(s, goal, blocked, chunks, (n + m - 1) as nat);
    }
}

pub(crate) proof fn lemma_run_split(
    s: FieldState,
    goal: spec_fn(Cell) -> bool,
    blocked: spec_fn(Cell) -> bool,
    chunks: GeneratedChunks,
    n: nat,
)
    ensures
        relax_run(s, goal, blocked, chunks, n + 1) == relax_step(
            relax_run(s, goal, blocked, chunks, n),
            goal,
            blocked,
            chunks,
        ),
    decreases n,
{
    let t = relax_step(s, goal, blocked, chunks);
    assert(relax_run(s, goal, blocked, chunks, n + 1) == relax_run(t, goal, blocked, chunks, n));
    if n > 0 {
        lemma_run_split(t, goal, blocked, chunks, (n - 1) as nat);
        assert((n - 1) as nat + 1 == n);
        assert(relax_run(s, goal, blocked, chunks, n) == relax_run(t, goal, blocked, chunks, (n - 1) as nat));
    } else {
        assert(relax_run(t, goal, blocked, chunks, 0) == t);
        assert(relax_run(s, goal, blocked, chunks, 0) == s);
    }
}

} // verus!
