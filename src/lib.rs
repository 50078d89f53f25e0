use vstd::prelude::*;

pub mod cell;
pub mod chunks;
pub mod detect;
pub mod field;
pub mod pathfind;
pub mod queue;
pub mod registry;
pub mod relax;
pub mod tile_map;

verus! {

} // verus!
