use vstd::prelude::*;

use crate::cell::{spec_in_footprint, Cell, Footprint};
use crate::tile_map::footprint_for;

verus! {

/// A goal or blocking entity that appeared, moved or changed size this tick.
#[derive(Clone, Copy, Debug, PartialEq, Eq, Structural)]
pub struct MapUpdate {
    pub entity: u64,
    pub pos: Cell,
    pub size: Option<Cell>,
}

/// `c` is covered by the footprint, if any.
pub open spec fn covers(f: Option<Footprint>, c: Cell) -> bool {
    match f {
        Some(f) => spec_in_footprint(f, c),
        None => false,
    }
}

/// The footprint of the last update of `e` among `updates`, if any.
pub open spec fn last_update(updates: Seq<MapUpdate>, e: u64) -> Option<Footprint>
    decreases updates.len(),
{
    if updates.len() == 0 {
        None
    } else if updates.last().entity == e {
        Some(footprint_for(updates.last().pos, updates.last().size))
    } else {
        last_update(updates.drop_last(), e)
    }
}

/// The footprint on file for the entity of `changed[j]` just before that
/// change is handled: its latest earlier change, else none when it was
/// removed this tick, else the one on file at the start (`prior`).
pub open spec fn footprint_before_change(
    prior: spec_fn(u64) -> Option<Footprint>,
    removed: Seq<u64>,
    changed: Seq<MapUpdate>,
    j: int,
) -> Option<Footprint> {
    let e = changed[j].entity;
    match last_update(changed.subrange(0, j), e) {
        Some(f) => Some(f),
        None => if removed.contains(e) {
            None
        } else {
            prior(e)
        },
    }
}

/// `c` is queued by this tick's changes: it lies in the footprint on file of
/// a removed entity, or in exactly one of an entity's footprints before and
/// after one of its changes.
pub open spec fn touched_by_updates(
    prior: spec_fn(u64) -> Option<Footprint>,
    removed: Seq<u64>,
    changed: Seq<MapUpdate>,
    c: Cell,
) -> bool {
    (exists|e: u64| #[trigger] removed.contains(e) && covers(prior(e), c)) || (exists|j: int|
        0 <= j < changed.len() && covers(
            #[trigger] footprint_before_change(prior, removed, changed, j),
            c,
        ) != covers(Some(footprint_for(changed[j].pos, changed[j].size)), c))
}

pub(crate) proof fn lemma_concat_contains(a: Seq<Cell>, b: Seq<Cell>, x: Cell)
    ensures
        (a + b).contains(x) <==> a.contains(x) || b.contains(x),
{
    let s = a + b;
    if a.contains(x) {
        let t = choose|t: int| 0 <= t < a.len() && a[t] == x;
        assert(s[t] == x);
    }
    if b.contains(x) {
        let t = choose|t: int| 0 <= t < b.len() && b[t] == x;
        assert(s[a.len() + t] == x);
    }
    if s.contains(x) {
        let t = choose|t: int| 0 <= t < s.len() && s[t] == x;
        if t < a.len() {
            assert(a[t] == x);
        } else {
            assert(b[t - a.len()] == x);
        }
    }
}

/// Two duplicate-free sequences with no element in common concatenate to a
/// duplicate-free sequence.
pub proof fn lemma_concat_distinct(a: Seq<Cell>, b: Seq<Cell>)
    requires
        a.no_duplicates(),
        b.no_duplicates(),
        forall|x: Cell| a.contains(x) ==> !b.contains(x),
    ensures
        (a + b).no_duplicates(),
{
    let s = a + b;
    assert forall|i: int, j: int| 0 <= i < s.len() && 0 <= j < s.len() && i != j implies s[i] != s[j] by {
        if i < a.len() && j >= a.len() {
            assert(a.contains(s[i]));
            assert(b[j - a.len()] == s[j]);
            assert(b.contains(s[j]));
        } else if j < a.len() && i >= a.len() {
            assert(a.contains(s[j]));
            assert(b[i - a.len()] == s[i]);
            assert(b.contains(s[i]));
        } else if i >= a.len() && j >= a.len() {
            assert(b[i - a.len()] == s[i]);
            assert(b[j - a.len()] == s[j]);
        }
    }
}

/// How many times `c` occurs in `s`.
pub open spec fn occurrences(s: Seq<Cell>, c: Cell) -> nat
    decreases s.len(),
{
    if s.len() == 0 {
        0
    } else {
        occurrences(s.drop_last(), c) + if s.last() == c {
            1nat
        } else {
            0nat
        }
    }
}

pub proof fn lemma_occurrences_concat(a: Seq<Cell>, b: Seq<Cell>, c: Cell)
    ensures
        occurrences(a + b, c) == occurrences(a, c) + occurrences(b, c),
    decreases b.len(),
{
    if b.len() == 0 {
        assert(a + b =~= a);
    } else {
        assert((a + b).drop_last() =~= a + b.drop_last());
        lemma_occurrences_concat(a, b.drop_last(), c);
    }
}

pub proof fn lemma_occurrences_absent(s: Seq<Cell>, c: Cell)
    requires
        !s.contains(c),
    ensures
        occurrences(s, c) == 0,
    decreases s.len(),
{
    if s.len() > 0 {
        assert(s.last() == s[s.len() - 1]);
        assert forall|t: int| 0 <= t < s.drop_last().len() implies s.drop_last()[t] != c by {
            assert(s.drop_last()[t] == s[t]);
        }
        lemma_occurrences_absent(s.drop_last(), c);
    }
}

/// A duplicate-free sequence holds each cell at most once.
pub proof fn lemma_occurrences_distinct(s: Seq<Cell>, c: Cell)
    requires
        s.no_duplicates(),
    ensures
        occurrences(s, c) <= 1,
    decreases s.len(),
{
    if s.len() > 0 {
        let d = s.drop_last();
        assert(d.no_duplicates()) by {
            assert forall|i: int, j: int| 0 <= i < d.len() && 0 <= j < d.len() && i != j implies d[i] != d[j] by {
                assert(d[i] == s[i] && d[j] == s[j]);
            }
        }
        lemma_occurrences_distinct(d, c);
        if s.last() == c {
            assert forall|t: int| 0 <= t < d.len() implies d[t] != c by {
                assert(d[t] == s[t]);
                assert(s[s.len() - 1] == c);
            }
            lemma_occurrences_absent(d, c);
        }
    }
}

/// The part of `w` past its first `n` cells.
pub open spec fn added_after(w: Seq<Cell>, n: int) -> Seq<Cell> {
    w.subrange(n, w.len() as int)
}

} // verus!
