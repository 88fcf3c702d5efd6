use vstd::prelude::*;

use crate::resources::{Gameplay, GameplayState};
use crate::world::{
    at_cell, columns_aligned, has_box_at, has_box_spot_at, is_box_spot, valid_idx, World,
};

verus! {

/// Every goal tile is covered by a box.
pub open spec fn all_spots_covered(w: World) -> bool {
    forall|i: int|
        valid_idx(w, i) && #[trigger] is_box_spot(w, i) ==> has_box_at(
            w,
            w.positions@[i].x as int,
            w.positions@[i].y as int,
        )
}

/// The set of cells that hold at least one box.
pub open spec fn box_cells(w: World) -> Set<(int, int)> {
    Set::new(|c: (int, int)| has_box_at(w, c.0, c.1))
}

/// The set of cells that hold at least one goal tile.
pub open spec fn box_spot_cells(w: World) -> Set<(int, int)> {
    Set::new(|c: (int, int)| has_box_spot_at(w, c.0, c.1))
}

/// The game is won exactly when the box cells form a superset of
/// the goal cells.
pub proof fn lemma_won_iff_spots_subset_of_boxes(w: World)
    ensures
        all_spots_covered(w) <==> box_spot_cells(w).subset_of(box_cells(w)),
{
    if all_spots_covered(w) {
        assert forall|c: (int, int)| box_spot_cells(w).contains(c) implies box_cells(
            w,
        ).contains(c) by {
            let i = choose|i: int|
                valid_idx(w, i) && #[trigger] is_box_spot(w, i) && at_cell(w, i, c.0, c.1);
            assert(has_box_at(w, w.positions@[i].x as int, w.positions@[i].y as int));
        }
    }
    if box_spot_cells(w).subset_of(box_cells(w)) {
        assert forall|i: int| valid_idx(w, i) && #[trigger] is_box_spot(w, i) implies has_box_at(
            w,
            w.positions@[i].x as int,
            w.positions@[i].y as int,
        ) by {
            let c = (w.positions@[i].x as int, w.positions@[i].y as int);
            assert(has_box_spot_at(w, c.0, c.1));
            assert(box_spot_cells(w).contains(c));
            assert(box_cells(w).contains(c));
        }
    }
}

/// Decides whether the puzzle is solved: `Won` exactly when every
/// goal tile's cell also holds a box; a world with no goal tiles
/// counts as won.
pub fn evaluate(world: &World) -> (r: GameplayState)
    requires
        columns_aligned(*world),
    ensures
        r == (if all_spots_covered(*world) {
            GameplayState::Won
        } else {
            GameplayState::Playing
        }),
{
    let n = world.box_spots.len();
    let mut i: usize = 0;
    while i < n
        invariant
            n == world.box_spots@.len(),
            columns_aligned(*world),
            i <= n,
            forall|k: int|
                0 <= k < i && #[trigger] is_box_spot(*world, k) ==> has_box_at(
                    *world,
                    world.positions@[k].x as int,
                    world.positions@[k].y as int,
                ),
        decreases n - i,
    {
        if world.box_spots[i].is_some() {
            let p = world.positions[i];
            if !world.box_at(p.x, p.y) {
                proof {
                    assert(is_box_spot(*world, i as int));
                    assert(!all_spots_covered(*world));
                }
                return GameplayState::Playing;
            }
        }
        i += 1;
    }
    GameplayState::Won
}

/// Re-scans the world each tick and records the outcome in the
/// shared game-state record; the move counter is left to the input
/// system.
pub struct GameplayStateSystem {}

impl GameplayStateSystem {
    /// Updates `gameplay.state` from the current box and goal
    /// positions.
    pub fn run(&self, gameplay: &mut Gameplay, world: &World)
        requires
            columns_aligned(*world),
        ensures
            final(gameplay).state == (if all_spots_covered(*world) {
                GameplayState::Won
            } else {
                GameplayState::Playing
            }),
            final(gameplay).moves_count == old(gameplay).moves_count,
    {
        gameplay.state = evaluate(world);
    }
}

} // verus!
