use vstd::prelude::*;

use crate::cell::footprint_fits;
use crate::chunks::GeneratedChunks;
use crate::field::FieldEntry;
use crate::cell::Cell;
use crate::detect::{added_after, last_update, touched_by_updates, MapUpdate};
use crate::pathfind::{marked_fn, Pathfinding};
use crate::relax::{relax_run, with_queued};
use crate::tile_map::{footprint_for, TileMap};

verus! {

/// One independent pathfinding engine per goal kind; a kind is named by the
/// index that registering it returned.
pub struct GoalKinds {
    kinds: Vec<Pathfinding>,
}

impl GoalKinds {
    /// The engines, by kind.
    pub closed spec fn engines(&self) -> Seq<Pathfinding> {
        self.kinds@
    }

    pub open spec fn wf(&self) -> bool {
        forall|k: int| 0 <= k < self.engines().len() ==> #[trigger] self.engines()[k].wf()
    }

    pub fn new() -> (r: GoalKinds)
        ensures
            r.wf(),
            r.engines().len() == 0,
    {
        GoalKinds { kinds: Vec::new() }
    }

    /// Adds a goal kind with an empty distance field, dirty queue and
    /// footprint tracker, and returns its index.
    pub fn register_pathfinding_towards(&mut self) -> (kind: usize)
        requires
            old(self).wf(),
        ensures
            final(self).wf(),
            kind == old(self).engines().len(),
            final(self).engines().len() == old(self).engines().len() + 1,
            forall|k: int| 0 <= k < kind ==> #[trigger] final(self).engines()[k] == old(self).engines()[k],
            final(self).engines()[kind as int].field() == Map::<crate::cell::Cell, FieldEntry>::empty(),
            final(self).engines()[kind as int].queue().spec_is_empty(),
            forall|e: u64| #[trigger] final(self).engines()[kind as int].footprint_on_file(e) is None,
    {
        let kind = self.kinds.len();
        let fresh = Pathfinding::new();
        self.kinds.push(fresh);
        assert forall|k: int| 0 <= k < self.engines().len() implies #[trigger] self.engines()[k].wf() by {
            if k < kind {
                assert(self.engines()[k] == old(self).engines()[k]);
            }
        }
        kind
    }

    /// The engine of `kind`, for direction queries.
    pub fn get(&self, kind: usize) -> (r: &Pathfinding)
        requires
            kind < self.engines().len(),
        ensures
            *r == self.engines()[kind as int],
    {
        &self.kinds[kind]
    }

    /// One tick of `kind`: the change detector queues the cells touched by
    /// this tick's marker changes, then the relaxer works through at most
    /// `budget` waiting cells. Other kinds are left alone.
    pub fn tick(
        &mut self,
        kind: usize,
        removed: &Vec<u64>,
        changed: &Vec<MapUpdate>,
        tile_map: &TileMap,
        searching_for: &std::collections::HashSet<u64>,
        blocking: &std::collections::HashSet<u64>,
        generated_chunks: &GeneratedChunks,
        budget: usize,
    )
        requires
            tile_map.wf(),
            old(self).wf(),
            kind < old(self).engines().len(),
            forall|j: int|
                0 <= j < changed@.len() ==> footprint_fits(
                    footprint_for(#[trigger] changed@[j].pos, changed@[j].size),
                ),
        ensures
            final(self).wf(),
            final(self).engines().len() == old(self).engines().len(),
            forall|k: int|
                0 <= k < old(self).engines().len() && k != kind ==> #[trigger] final(self).engines()[k]
                    == old(self).engines()[k],
            old(self).engines()[kind as int].settled(
                *tile_map,
                searching_for@,
                blocking@,
                *generated_chunks,
            ) ==> final(self).engines()[kind as int].settled(
                *tile_map,
                searching_for@,
                blocking@,
                *generated_chunks,
            ),
            forall|e: u64| #[trigger]
                final(self).engines()[kind as int].footprint_on_file(e) == match last_update(changed@, e) {
                    Some(f) => Some(f),
                    None => if removed@.contains(e) {
                        None
                    } else {
                        old(self).engines()[kind as int].footprint_on_file(e)
                    },
                },
            exists|touched: Seq<Cell>|
                {
                    &&& forall|c: Cell| #[trigger]
                        touched.contains(c) <==> touched_by_updates(
                            |e: u64| old(self).engines()[kind as int].footprint_on_file(e),
                            removed@,
                            changed@,
                            c,
                        )
                    &&& final(self).engines()[kind as int].state() == relax_run(
                        #[trigger] with_queued(old(self).engines()[kind as int].state(), touched),
                        marked_fn(*tile_map, searching_for@),
                        marked_fn(*tile_map, blocking@),
                        *generated_chunks,
                        budget as nat,
                    )
                },
    {
        let ghost before = self.kinds@[kind as int];
        let mut engine = self.kinds.remove(kind);
        engine.detect_map_updates(removed, changed);
        proof {
            if before.settled(*tile_map, searching_for@, blocking@, *generated_chunks) {
                assert forall|c: crate::cell::Cell|
                    #![trigger generated_chunks.generated(c)]
                    generated_chunks.generated(c) && !engine.queue().holds(c) implies crate::field::consistent_at(
                        engine.field(),
                        crate::pathfind::marked_fn(*tile_map, searching_for@),
                        crate::pathfind::marked_fn(*tile_map, blocking@),
                        c,
                    ) by {}
            }
        }
        let ghost touched = added_after(engine.queue().waiting(0), before.queue().waiting(0).len() as int);
        proof {
            let s0 = before.state();
            let w = engine.queue().waiting(0);
            assert(w =~= before.queue().waiting(0) + touched);
            assert(engine.state().waiting =~= s0.waiting.insert(0, s0.waiting[0] + touched));
            assert(engine.state() == with_queued(s0, touched));
        }
        engine.pathfind_iteration(tile_map, searching_for, blocking, generated_chunks, budget);
        self.kinds.insert(kind, engine);
        assert(self.engines()[kind as int].state() == relax_run(
            with_queued(before.state(), touched),
            crate::pathfind::marked_fn(*tile_map, searching_for@),
            crate::pathfind::marked_fn(*tile_map, blocking@),
            *generated_chunks,
            budget as nat,
        ));
        assert forall|k: int|
            0 <= k < old(self).engines().len() && k != kind implies #[trigger] self.engines()[k]
                == old(self).engines()[k] by {}
    }
}

} // verus!
