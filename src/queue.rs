use vstd::prelude::*;

use crate::cell::Cell;

verus! {

/// A cell waiting for re-evaluation. Lower priorities are taken first; the
/// priority is a scheduling hint (steps from the change that queued it), not a
/// distance.
#[derive(Clone, Copy, Debug, PartialEq, Eq, Structural)]
pub struct DirtyEntry {
    pub priority: usize,
    pub cell: Cell,
}

/// Cells pending re-evaluation, kept in one bucket per priority. Within a
/// bucket the most recently added cell leaves first.
pub struct DirtyQueue {
    buckets: Vec<Vec<Cell>>,
    lowest: usize,
}

impl DirtyQueue {
    /// The cells waiting at priority `p`, oldest first.
    pub closed spec fn waiting(&self, p: int) -> Seq<Cell> {
        if 0 <= p < self.buckets@.len() {
            self.buckets@[p]@
        } else {
            Seq::empty()
        }
    }

    /// Every bucket below the scan position is empty.
    pub closed spec fn wf(&self) -> bool {
        &&& self.lowest <= self.buckets@.len()
        &&& forall|p: int| 0 <= p < self.lowest ==> #[trigger] self.waiting(p).len() == 0
    }

    pub open spec fn spec_is_empty(&self) -> bool {
        forall|p: int| #[trigger] self.waiting(p).len() == 0
    }

    /// `c` waits at some priority.
    pub open spec fn holds(&self, c: Cell) -> bool {
        exists|p: int| #[trigger] self.waiting(p).contains(c)
    }

    pub fn new() -> (r: DirtyQueue)
        ensures
            r.wf(),
            r.spec_is_empty(),
    {
        DirtyQueue { buckets: Vec::new(), lowest: 0 }
    }

    /// Adds `e.cell` at priority `e.priority`.
    pub fn push(&mut self, e: DirtyEntry)
        requires
            old(self).wf(),
        ensures
            final(self).wf(),
            forall|p: int|
                #[trigger] final(self).waiting(p) == if p == e.priority {
                    old(self).waiting(p).push(e.cell)
                } else {
                    old(self).waiting(p)
                },
    {
        let p = e.priority;
        let ghost before = *self;
        while self.buckets.len() <= p
            invariant
                forall|q: int| #[trigger] self.waiting(q) == before.waiting(q),
                self.lowest == before.lowest,
                self.lowest <= self.buckets@.len(),
            decreases p + 1 - self.buckets.len(),
        {
            let ghost prev = *self;
            self.buckets.push(Vec::new());
            assert forall|q: int| #[trigger] self.waiting(q) == before.waiting(q) by {
                assert(self.waiting(q) =~= prev.waiting(q));
            }
        }
        let ghost mid = *self;
        self.buckets[p].push(e.cell);
        if p < self.lowest {
            self.lowest = p;
        }
        assert forall|q: int| #[trigger]
            self.waiting(q) == if q == p {
                before.waiting(q).push(e.cell)
            } else {
                before.waiting(q)
            } by {
            assert(mid.waiting(q) == before.waiting(q));
            if q == p {
                assert(self.buckets@[q]@ == mid.buckets@[q]@.push(e.cell));
                assert(self.waiting(q) == self.buckets@[q]@);
            } else if 0 <= q < self.buckets@.len() {
                assert(self.buckets@[q] == mid.buckets@[q]);
                assert(self.waiting(q) == mid.waiting(q));
            } else {
                assert(self.waiting(q) == mid.waiting(q));
            }
        }
        assert forall|q: int| 0 <= q < self.lowest implies #[trigger] self.waiting(q).len() == 0 by {
            assert(mid.waiting(q) == before.waiting(q));
        }
    }

    /// Takes out a cell of the lowest priority that has any, the one added
    /// last among them; `None` when nothing waits.
    pub fn pop(&mut self) -> (r: Option<DirtyEntry>)
        requires
            old(self).wf(),
        ensures
            final(self).wf(),
            r is None <==> old(self).spec_is_empty(),
            r is None ==> final(self).spec_is_empty(),
            r matches Some(e) ==> {
                &&& e.priority < usize::MAX
                &&& old(self).waiting(e.priority as int).len() > 0
                &&& e.cell == old(self).waiting(e.priority as int).last()
                &&& forall|q: int| q < e.priority ==> #[trigger] old(self).waiting(q).len() == 0
                &&& forall|p: int|
                    #[trigger] final(self).waiting(p) == if p == e.priority {
                        old(self).waiting(p).drop_last()
                    } else {
                        old(self).waiting(p)
                    }
            },
    {
        let ghost before = *self;
        let mut lo = self.lowest;
        while lo < self.buckets.len() && self.buckets[lo].len() == 0
            invariant
                *self == before,
                self.wf(),
                self.lowest <= lo <= self.buckets@.len(),
                forall|q: int| 0 <= q < lo ==> #[trigger] self.waiting(q).len() == 0,
            decreases self.buckets.len() - lo,
        {
            assert(self.waiting(lo as int).len() == 0);
            lo = lo + 1;
        }
        if lo == self.buckets.len() {
            assert forall|q: int| #[trigger] before.waiting(q).len() == 0 by {
                if q >= 0 && q < lo {
                    assert(self.waiting(q).len() == 0);
                }
            }
            self.buckets = Vec::new();
            self.lowest = 0;
            return None;
        }
        self.lowest = lo;
        assert(forall|q: int| #[trigger] self.waiting(q) == before.waiting(q));
        let p = self.lowest;
        let ghost mid = *self;
        assert(mid.waiting(p as int) == self.buckets@[p as int]@);
        let c = self.buckets[p].pop().unwrap();
        proof {
            assert(before.waiting(p as int).len() > 0);
            assert forall|q: int| #[trigger]
                self.waiting(q) == if q == p {
                    before.waiting(q).drop_last()
                } else {
                    before.waiting(q)
                } by {
                if q != p && 0 <= q < self.buckets@.len() {
                    assert(self.buckets@[q] == mid.buckets@[q]);
                }
            }
            assert forall|q: int| q < p implies #[trigger] before.waiting(q).len() == 0 by {
                if q >= 0 {
                    assert(mid.waiting(q).len() == 0);
                }
            }
        }
        Some(DirtyEntry { priority: p, cell: c })
    }

    /// The cells waiting at `priority`, oldest first.
    pub fn cells_at(&self, priority: usize) -> (r: Vec<Cell>)
        ensures
            r@ == self.waiting(priority as int),
    {
        if priority < self.buckets.len() {
            let r = self.buckets[priority].clone();
            assert(r@ =~= self.buckets@[priority as int]@);
            r
        } else {
            Vec::new()
        }
    }

    /// True when no cell waits.
    pub fn is_empty(&self) -> (r: bool)
        requires
            self.wf(),
        ensures
            r == self.spec_is_empty(),
    {
        let mut p = self.lowest;
        while p < self.buckets.len()
            invariant
                self.lowest <= p <= self.buckets.len(),
                self.wf(),
                forall|q: int| 0 <= q < p ==> #[trigger] self.waiting(q).len() == 0,
            decreases self.buckets.len() - p,
        {
            if self.buckets[p].len() > 0 {
                assert(self.waiting(p as int).len() > 0);
                return false;
            }
            p = p + 1;
        }
        true
    }
}

} // verus!
