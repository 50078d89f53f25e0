use vstd::prelude::*;

use crate::cell::{lemma_push_distinct, footprint_fits, key_of, lemma_key_of_injective, spec_in_footprint, Cell, Footprint};

verus! {

broadcast use {vstd::std_specs::hash::group_hash_axioms, vstd::seq_lib::lemma_seq_contains_after_push};

/// Which entities stand on each cell. Each placed entity's footprint is kept,
/// so that moving or removing it clears the cells it used to cover.
pub struct TileMap {
    entities_by_tile: std::collections::HashMap<i64, Vec<u64>>,
    prev: std::collections::HashMap<u64, Footprint>,
}

/// The occupants of `c` after taking `e` off the cells of `f`, if any.
pub open spec fn without_footprint(occ: Set<u64>, f: Option<Footprint>, e: u64, c: Cell) -> Set<u64> {
    match f {
        Some(f) => if spec_in_footprint(f, c) {
            occ.remove(e)
        } else {
            occ
        },
        None => occ,
    }
}

/// The footprint of an entity at `pos`; one cell when it has no size.
pub open spec fn footprint_for(pos: Cell, size: Option<Cell>) -> Footprint {
    Footprint {
        position: pos,
        size: match size {
            Some(s) => s,
            None => Cell { x: 1, y: 1 },
        },
    }
}

impl TileMap {
    /// The entities standing on `c`.
    pub closed spec fn occupants(&self, c: Cell) -> Set<u64> {
        Set::new(
            |e: u64|
                self.entities_by_tile@.contains_key(key_of(c)) && self.entities_by_tile@[key_of(
                    c,
                )]@.contains(e),
        )
    }

    /// The footprint on file for `e`.
    pub closed spec fn footprint_of(&self, e: u64) -> Option<Footprint> {
        if self.prev@.contains_key(e) {
            Some(self.prev@[e])
        } else {
            None
        }
    }

    /// No cell lists an entity twice.
    pub closed spec fn distinct(&self) -> bool {
        forall|k: i64|
            #[trigger] self.entities_by_tile@.contains_key(k) ==> self.entities_by_tile@[k]@.no_duplicates()
    }

    /// Every footprint on file has representable cells, and no cell lists an
    /// entity twice.
    pub closed spec fn wf(&self) -> bool {
        &&& forall|e: u64| #[trigger] self.prev@.contains_key(e) ==> footprint_fits(self.prev@[e])
        &&& self.distinct()
    }

    pub fn new() -> (r: TileMap)
        ensures
            r.wf(),
            forall|c: Cell| #[trigger] r.occupants(c) == Set::<u64>::empty(),
            forall|e: u64| #[trigger] r.footprint_of(e) is None,
    {
        let r = TileMap {
            entities_by_tile: std::collections::HashMap::new(),
            prev: std::collections::HashMap::new(),
        };
        assert forall|c: Cell| #[trigger] r.occupants(c) == Set::<u64>::empty() by {
            assert(r.occupants(c) =~= Set::<u64>::empty());
        }
        r
    }

    /// The entities standing on `pos`.
    pub fn entities_at(&self, pos: Cell) -> (r: Vec<u64>)
        requires
            self.wf(),
        ensures
            forall|e: u64| #[trigger] r@.contains(e) <==> self.occupants(pos).contains(e),
            r@.no_duplicates(),
    {
        match self.entities_by_tile.get(&pos.key()) {
            Some(v) => {
                let r = v.clone();
                assert(r@ =~= v@);
                r
            },
            None => Vec::new(),
        }
    }

    fn remove_at(&mut self, c: Cell, e: u64)
        requires
            old(self).distinct(),
        ensures
            final(self).distinct(),
            final(self).prev@ == old(self).prev@,
            forall|d: Cell| #[trigger]
                final(self).occupants(d) == if d == c {
                    old(self).occupants(d).remove(e)
                } else {
                    old(self).occupants(d)
                },
    {
        let k = c.key();
        let ghost before = *self;
        let kept = match self.entities_by_tile.get(&k) {
            None => {
                assert forall|d: Cell| #[trigger]
                    self.occupants(d) == if d == c {
                        before.occupants(d).remove(e)
                    } else {
                        before.occupants(d)
                    } by {
                    assert(self.occupants(d) =~= before.occupants(d));
                    if d == c {
                        assert(before.occupants(d) =~= before.occupants(d).remove(e));
                    }
                }
                return ;
            },
            Some(v) => {
                let mut kept: Vec<u64> = Vec::new();
                let mut i: usize = 0;
                while i < v.len()
                    invariant
                        i <= v@.len(),
                        v@.no_duplicates(),
                        kept@.no_duplicates(),
                        forall|x: u64| #[trigger]
                            kept@.contains(x) <==> (x != e && v@.subrange(0, i as int).contains(x)),
                    decreases v.len() - i,
                {
                    let ghost pre = kept@;
                    let x = v[i];
                    if x != e {
                        proof {
                            if v@.subrange(0, i as int).contains(x) {
                                let j = choose|j: int| 0 <= j < i && v@.subrange(0, i as int)[j] == x;
                                assert(v@[j] == v@[i as int]);
                            }
                            lemma_push_distinct(pre, x);
                        }
                        kept.push(x);
                    }
                    assert forall|y: u64| #[trigger]
                        kept@.contains(y) <==> (y != e && v@.subrange(0, i + 1).contains(y)) by {
                        assert(v@.subrange(0, i + 1) =~= v@.subrange(0, i as int).push(x));
                        if x != e {
                            assert(kept@ =~= pre.push(x));
                        }
                    }
                    i = i + 1;
                }
                assert(v@.subrange(0, v@.len() as int) =~= v@);
                kept
            },
        };
        self.entities_by_tile.insert(k, kept);
        assert forall|k2: i64| #[trigger] self.entities_by_tile@.contains_key(k2) implies self.entities_by_tile@[k2]@.no_duplicates() by {
            if k2 != k {
                assert(before.entities_by_tile@.contains_key(k2));
            }
        }
        assert forall|d: Cell| #[trigger]
            self.occupants(d) == if d == c {
                before.occupants(d).remove(e)
            } else {
                before.occupants(d)
            } by {
            lemma_key_of_injective(c, d);
            if d == c {
                assert(self.occupants(d) =~= before.occupants(d).remove(e));
            } else {
                assert(self.occupants(d) =~= before.occupants(d));
            }
        }
    }

    fn add_at(&mut self, c: Cell, e: u64)
        requires
            old(self).distinct(),
        ensures
            final(self).distinct(),
            final(self).prev@ == old(self).prev@,
            forall|d: Cell| #[trigger]
                final(self).occupants(d) == if d == c {
                    old(self).occupants(d).insert(e)
                } else {
                    old(self).occupants(d)
                },
    {
        let k = c.key();
        let ghost before = *self;
        let mut v = match self.entities_by_tile.get(&k) {
            Some(v) => v.clone(),
            None => Vec::new(),
        };
        let ghost old_v = v@;
        assert(forall|x: u64| #[trigger] before.occupants(c).contains(x) <==> old_v.contains(x));
        assert(old_v.no_duplicates());
        let mut i: usize = 0;
        let mut present = false;
        while i < v.len()
            invariant
                v@ == old_v,
                i <= v@.len(),
                present <==> v@.subrange(0, i as int).contains(e),
            decreases v.len() - i,
        {
            assert(v@.subrange(0, i + 1) =~= v@.subrange(0, i as int).push(v@[i as int]));
            if v[i] == e {
                present = true;
            }
            i = i + 1;
        }
        assert(v@.subrange(0, v@.len() as int) =~= v@);
        if !present {
            proof {
                lemma_push_distinct(old_v, e);
            }
            v.push(e);
        }
        assert(forall|x: u64| #[trigger] v@.contains(x) <==> (old_v.contains(x) || x == e)) by {
            assert forall|x: u64| #[trigger] v@.contains(x) <==> (old_v.contains(x) || x == e) by {
                if !present {
                    assert(v@ =~= old_v.push(e));
                    if old_v.contains(x) {
                        let j = choose|j: int| 0 <= j < old_v.len() && old_v[j] == x;
                        assert(v@[j] == x);
                    }
                    if x == e {
                        assert(v@[old_v.len() as int] == e);
                    }
                }
            }
        }
        self.entities_by_tile.insert(k, v);
        assert forall|k2: i64| #[trigger] self.entities_by_tile@.contains_key(k2) implies self.entities_by_tile@[k2]@.no_duplicates() by {
            if k2 != k {
                assert(before.entities_by_tile@.contains_key(k2));
            }
        }
        assert forall|d: Cell| #[trigger]
            self.occupants(d) == if d == c {
                before.occupants(d).insert(e)
            } else {
                before.occupants(d)
            } by {
            lemma_key_of_injective(c, d);
            if d == c {
                assert(self.occupants(d) =~= before.occupants(d).insert(e));
            } else {
                assert(self.occupants(d) =~= before.occupants(d));
            }
        }
    }

    fn clear_footprint(&mut self, f: Footprint, e: u64)
        requires
            old(self).distinct(),
            footprint_fits(f),
        ensures
            final(self).distinct(),
            final(self).prev@ == old(self).prev@,
            forall|d: Cell| #[trigger]
                final(self).occupants(d) == if spec_in_footprint(f, d) {
                    old(self).occupants(d).remove(e)
                } else {
                    old(self).occupants(d)
                },
    {
        let ghost before = *self;
        let cells = f.cells();
        let mut i: usize = 0;
        while i < cells.len()
            invariant
                self.distinct(),
                i <= cells@.len(),
                self.prev@ == before.prev@,
                forall|c: Cell| #[trigger] cells@.contains(c) <==> spec_in_footprint(f, c),
                forall|d: Cell| #[trigger]
                    self.occupants(d) == if cells@.subrange(0, i as int).contains(d) {
                        before.occupants(d).remove(e)
                    } else {
                        before.occupants(d)
                    },
            decreases cells.len() - i,
        {
            let c = cells[i];
            self.remove_at(c, e);
            assert forall|d: Cell| #[trigger]
                self.occupants(d) == if cells@.subrange(0, i + 1).contains(d) {
                    before.occupants(d).remove(e)
                } else {
                    before.occupants(d)
                } by {
                assert(cells@.subrange(0, i + 1) =~= cells@.subrange(0, i as int).push(c));
                if d == c {
                    assert(before.occupants(d).remove(e).remove(e) =~= before.occupants(d).remove(e));
                }
            }
            i = i + 1;
        }
        assert(cells@.subrange(0, cells@.len() as int) =~= cells@);
    }

    fn fill_footprint(&mut self, f: Footprint, e: u64)
        requires
            old(self).distinct(),
            footprint_fits(f),
        ensures
            final(self).distinct(),
            final(self).prev@ == old(self).prev@,
            forall|d: Cell| #[trigger]
                final(self).occupants(d) == if spec_in_footprint(f, d) {
                    old(self).occupants(d).insert(e)
                } else {
                    old(self).occupants(d)
                },
    {
        let ghost before = *self;
        let cells = f.cells();
        let mut i: usize = 0;
        while i < cells.len()
            invariant
                self.distinct(),
                i <= cells@.len(),
                self.prev@ == before.prev@,
                forall|c: Cell| #[trigger] cells@.contains(c) <==> spec_in_footprint(f, c),
                forall|d: Cell| #[trigger]
                    self.occupants(d) == if cells@.subrange(0, i as int).contains(d) {
                        before.occupants(d).insert(e)
                    } else {
                        before.occupants(d)
                    },
            decreases cells.len() - i,
        {
            let c = cells[i];
            self.add_at(c, e);
            assert forall|d: Cell| #[trigger]
                self.occupants(d) == if cells@.subrange(0, i + 1).contains(d) {
                    before.occupants(d).insert(e)
                } else {
                    before.occupants(d)
                } by {
                assert(cells@.subrange(0, i + 1) =~= cells@.subrange(0, i as int).push(c));
                if d == c {
                    assert(before.occupants(d).insert(e).insert(e) =~= before.occupants(d).insert(e));
                }
            }
            i = i + 1;
        }
        assert(cells@.subrange(0, cells@.len() as int) =~= cells@);
    }

    /// Takes `entity` off every cell of its footprint on file and forgets the footprint.
    pub fn remove(&mut self, entity: u64)
        requires
            old(self).wf(),
        ensures
            final(self).wf(),
            final(self).footprint_of(entity) is None,
            forall|e: u64| e != entity ==> #[trigger] final(self).footprint_of(e) == old(self).footprint_of(e),
            forall|c: Cell| #[trigger]
                final(self).occupants(c) == without_footprint(
                    old(self).occupants(c),
                    old(self).footprint_of(entity),
                    entity,
                    c,
                ),
    {
        let ghost before = *self;
        match self.prev.remove(&entity) {
            Some(f) => {
                assert(footprint_fits(f));
                self.clear_footprint(f, entity);
            },
            None => {},
        }
        assert forall|e: u64| #[trigger] self.prev@.contains_key(e) implies footprint_fits(self.prev@[e]) by {
            assert(before.prev@.contains_key(e));
        }
    }

    /// Puts `entity` on the cells of its footprint at `pos` (one cell when
    /// `size` is absent), after taking it off the cells of its previous
    /// footprint, and keeps the new footprint on file.
    pub fn place(&mut self, entity: u64, pos: Cell, size: Option<Cell>)
        requires
            old(self).wf(),
            footprint_fits(footprint_for(pos, size)),
        ensures
            final(self).wf(),
            final(self).footprint_of(entity) == Some(footprint_for(pos, size)),
            forall|e: u64| e != entity ==> #[trigger] final(self).footprint_of(e) == old(self).footprint_of(e),
            forall|c: Cell| #[trigger]
                final(self).occupants(c) == if spec_in_footprint(footprint_for(pos, size), c) {
                    without_footprint(
                        old(self).occupants(c),
                        old(self).footprint_of(entity),
                        entity,
                        c,
                    ).insert(entity)
                } else {
                    without_footprint(
                        old(self).occupants(c),
                        old(self).footprint_of(entity),
                        entity,
                        c,
                    )
                },
    {
        let ghost before = *self;
        let sz = match size {
            Some(s) => s,
            None => Cell { x: 1, y: 1 },
        };
        let f = Footprint { position: pos, size: sz };
        match self.prev.get(&entity) {
            Some(p) => {
                let p = *p;
                self.clear_footprint(p, entity);
            },
            None => {},
        }
        let ghost cleared = *self;
        assert(forall|c: Cell| #[trigger] cleared.occupants(c) == without_footprint(
            before.occupants(c), before.footprint_of(entity), entity, c));
        self.fill_footprint(f, entity);
        let ghost filled = *self;
        self.prev.insert(entity, f);
        assert forall|e: u64| #[trigger] self.prev@.contains_key(e) implies footprint_fits(self.prev@[e]) by {
            if e != entity {
                assert(before.prev@.contains_key(e));
            }
        }
        assert forall|c: Cell| #[trigger] self.occupants(c) == filled.occupants(c) by {
            assert(self.occupants(c) =~= filled.occupants(c));
        }
    }
}

} // verus!
