use vstd::prelude::*;

use crate::components::{Box, BoxSpot, Immovable, Movable, Player, Position, Renderable, Wall};

verus! {

/// The entity store: a column per component kind, all indexed by the
/// entity id. Every entity owns a `Position`; the remaining columns
/// are sparse.
pub struct World {
    pub positions: Vec<Position>,
    pub renderables: Vec<Option<Renderable>>,
    pub walls: Vec<Option<Wall>>,
    pub players: Vec<Option<Player>>,
    pub boxes: Vec<Option<Box>>,
    pub box_spots: Vec<Option<BoxSpot>>,
    pub movables: Vec<Option<Movable>>,
    pub immovables: Vec<Option<Immovable>>,
}

/// Number of entities in the world.
pub open spec fn entity_count(w: World) -> nat {
    w.positions@.len()
}

/// Every column has one slot per entity.
pub open spec fn columns_aligned(w: World) -> bool {
    &&& w.renderables@.len() == entity_count(w)
    &&& w.walls@.len() == entity_count(w)
    &&& w.players@.len() == entity_count(w)
    &&& w.boxes@.len() == entity_count(w)
    &&& w.box_spots@.len() == entity_count(w)
    &&& w.movables@.len() == entity_count(w)
    &&& w.immovables@.len() == entity_count(w)
}

pub open spec fn valid_idx(w: World, i: int) -> bool {
    0 <= i < entity_count(w)
}

pub open spec fn is_movable(w: World, i: int) -> bool {
    w.movables@[i] is Some
}

pub open spec fn is_immovable(w: World, i: int) -> bool {
    w.immovables@[i] is Some
}

pub open spec fn is_player(w: World, i: int) -> bool {
    w.players@[i] is Some
}

pub open spec fn is_box(w: World, i: int) -> bool {
    w.boxes@[i] is Some
}

pub open spec fn is_box_spot(w: World, i: int) -> bool {
    w.box_spots@[i] is Some
}

pub open spec fn is_wall(w: World, i: int) -> bool {
    w.walls@[i] is Some
}

/// An entity that takes part in blocking: it either moves with a push
/// chain or stops one.
pub open spec fn is_tagged(w: World, i: int) -> bool {
    is_movable(w, i) || is_immovable(w, i)
}

/// The image that marks a floor tile.
pub open spec fn floor_image() -> Seq<char> {
    "/images/floor.png"@
}

/// A floor entity: pure scenery, recognised by its image.
pub open spec fn is_floor(w: World, i: int) -> bool {
    w.renderables@[i] is Some && w.renderables@[i]->0.path@ == floor_image()
}

/// Entity `i` stands on cell `(x, y)`.
pub open spec fn at_cell(w: World, i: int, x: int, y: int) -> bool {
    w.positions@[i].x as int == x && w.positions@[i].y as int == y
}

pub open spec fn has_movable_at(w: World, x: int, y: int) -> bool {
    exists|i: int| valid_idx(w, i) && #[trigger] is_movable(w, i) && at_cell(w, i, x, y)
}

pub open spec fn has_immovable_at(w: World, x: int, y: int) -> bool {
    exists|i: int| valid_idx(w, i) && #[trigger] is_immovable(w, i) && at_cell(w, i, x, y)
}

pub open spec fn has_box_at(w: World, x: int, y: int) -> bool {
    exists|i: int| valid_idx(w, i) && #[trigger] is_box(w, i) && at_cell(w, i, x, y)
}

pub open spec fn has_box_spot_at(w: World, x: int, y: int) -> bool {
    exists|i: int| valid_idx(w, i) && #[trigger] is_box_spot(w, i) && at_cell(w, i, x, y)
}

pub open spec fn has_player_at(w: World, x: int, y: int) -> bool {
    exists|i: int| valid_idx(w, i) && #[trigger] is_player(w, i) && at_cell(w, i, x, y)
}

pub open spec fn has_wall_at(w: World, x: int, y: int) -> bool {
    exists|i: int| valid_idx(w, i) && #[trigger] is_wall(w, i) && at_cell(w, i, x, y)
}

pub open spec fn has_floor_at(w: World, x: int, y: int) -> bool {
    exists|i: int| valid_idx(w, i) && #[trigger] is_floor(w, i) && at_cell(w, i, x, y)
}

/// Well-formedness of a world: aligned columns, the capability tags
/// mutually exclusive, at most one blocking entity per cell, and the
/// tag discipline of the data model (players and boxes push, walls
/// block).
pub open spec fn wf(w: World) -> bool {
    &&& columns_aligned(w)
    &&& forall|i: int| valid_idx(w, i) ==> !(#[trigger] is_movable(w, i) && is_immovable(w, i))
    &&& forall|i: int, j: int|
        valid_idx(w, i) && valid_idx(w, j) && i != j && #[trigger] is_tagged(w, i)
            && #[trigger] is_tagged(w, j) ==> w.positions@[i].x != w.positions@[j].x
            || w.positions@[i].y != w.positions@[j].y
    &&& forall|i: int| valid_idx(w, i) && #[trigger] is_player(w, i) ==> is_movable(w, i)
    &&& forall|i: int| valid_idx(w, i) && #[trigger] is_box(w, i) ==> is_movable(w, i)
    &&& forall|i: int| valid_idx(w, i) && #[trigger] is_wall(w, i) ==> is_immovable(w, i)
}

/// The level invariant that a single player exists is kept outside
/// `wf` so that a world can be inspected while it is being built.
pub open spec fn at_most_one_player(w: World) -> bool {
    forall|i: int, j: int|
        valid_idx(w, i) && valid_idx(w, j) && #[trigger] is_player(w, i)
            && #[trigger] is_player(w, j) ==> i == j
}

pub open spec fn has_player(w: World) -> bool {
    exists|i: int| valid_idx(w, i) && #[trigger] is_player(w, i)
}

/// Id of the player entity; meaningful only under `has_player` and
/// `at_most_one_player`.
pub open spec fn player_index(w: World) -> int {
    choose|i: int| valid_idx(w, i) && #[trigger] is_player(w, i)
}

impl World {
    /// An empty entity store.
    pub fn new() -> (w: World)
        ensures
            entity_count(w) == 0,
            wf(w),
            !has_player(w),
    {
        World {
            positions: Vec::new(),
            renderables: Vec::new(),
            walls: Vec::new(),
            players: Vec::new(),
            boxes: Vec::new(),
            box_spots: Vec::new(),
            movables: Vec::new(),
            immovables: Vec::new(),
        }
    }

    /// Id of the player, if one exists.
    pub fn find_player(&self) -> (r: Option<usize>)
        requires
            columns_aligned(*self),
            at_most_one_player(*self),
        ensures
            r is Some <==> has_player(*self),
            r is Some ==> r->0 as int == player_index(*self) && valid_idx(
                *self,
                r->0 as int,
            ) && is_player(*self, r->0 as int),
    {
        let n = self.players.len();
        let mut i: usize = 0;
        while i < n
            invariant
                n == entity_count(*self),
                columns_aligned(*self),
                at_most_one_player(*self),
                i <= n,
                forall|k: int| 0 <= k < i ==> !is_player(*self, k),
            decreases n - i,
        {
            if self.players[i].is_some() {
                proof {
                    assert(is_player(*self, i as int));
                    let pi = player_index(*self);
                    assert(valid_idx(*self, pi) && is_player(*self, pi));
                }
                return Some(i);
            }
            i += 1;
        }
        proof {
            assert(forall|k: int| valid_idx(*self, k) ==> !is_player(*self, k));
        }
        None
    }

    /// Whether at most one entity carries the player tag, as the
    /// level invariant demands.
    pub fn has_at_most_one_player(&self) -> (r: bool)
        requires
            columns_aligned(*self),
        ensures
            r == at_most_one_player(*self),
    {
        let n = self.players.len();
        let mut found: bool = false;
        let mut first: usize = 0;
        let mut i: usize = 0;
        while i < n
            invariant
                n == entity_count(*self),
                columns_aligned(*self),
                i <= n,
                !found ==> forall|k: int| 0 <= k < i ==> !is_player(*self, k),
                found ==> first < i && is_player(*self, first as int) && forall|k: int|
                    0 <= k < i && #[trigger] is_player(*self, k) ==> k == first,
            decreases n - i,
        {
            if self.players[i].is_some() {
                proof {
                    assert(is_player(*self, i as int));
                }
                if found {
                    proof {
                        assert(!at_most_one_player(*self));
                    }
                    return false;
                }
                found = true;
                first = i;
            }
            i += 1;
        }
        true
    }

    /// Id of the movable entity on cell `(x, y)`, if any.
    pub fn find_movable_at(&self, x: i32, y: i32) -> (r: Option<usize>)
        requires
            columns_aligned(*self),
        ensures
            r is Some <==> has_movable_at(*self, x as int, y as int),
            r is Some ==> valid_idx(*self, r->0 as int) && is_movable(*self, r->0 as int)
                && at_cell(*self, r->0 as int, x as int, y as int),
    {
        let n = self.movables.len();
        let mut i: usize = 0;
        while i < n
            invariant
                n == entity_count(*self),
                columns_aligned(*self),
                i <= n,
                forall|k: int|
                    0 <= k < i ==> !(#[trigger] is_movable(*self, k) && at_cell(
                        *self,
                        k,
                        x as int,
                        y as int,
                    )),
            decreases n - i,
        {
            if self.movables[i].is_some() && self.positions[i].x as i32 == x
                && self.positions[i].y as i32 == y {
                proof {
                    assert(is_movable(*self, i as int) && at_cell(*self, i as int, x as int, y as int));
                }
                return Some(i);
            }
            i += 1;
        }
        None
    }

    /// Whether an immovable entity stands on cell `(x, y)`.
    pub fn immovable_at(&self, x: i32, y: i32) -> (r: bool)
        requires
            columns_aligned(*self),
        ensures
            r == has_immovable_at(*self, x as int, y as int),
    {
        let n = self.immovables.len();
        let mut i: usize = 0;
        while i < n
            invariant
                n == entity_count(*self),
                columns_aligned(*self),
                i <= n,
                forall|k: int|
                    0 <= k < i ==> !(#[trigger] is_immovable(*self, k) && at_cell(
                        *self,
                        k,
                        x as int,
                        y as int,
                    )),
            decreases n - i,
        {
            if self.immovables[i].is_some() && self.positions[i].x as i32 == x
                && self.positions[i].y as i32 == y {
                proof {
                    assert(is_immovable(*self, i as int) && at_cell(*self, i as int, x as int, y as int));
                }
                return true;
            }
            i += 1;
        }
        false
    }

    /// Whether a box stands on cell `(x, y)`.
    pub fn box_at(&self, x: u8, y: u8) -> (r: bool)
        requires
            columns_aligned(*self),
        ensures
            r == has_box_at(*self, x as int, y as int),
    {
        let n = self.boxes.len();
        let mut i: usize = 0;
        while i < n
            invariant
                n == entity_count(*self),
                columns_aligned(*self),
                i <= n,
                forall|k: int|
                    0 <= k < i ==> !(#[trigger] is_box(*self, k) && at_cell(
                        *self,
                        k,
                        x as int,
                        y as int,
                    )),
            decreases n - i,
        {
            if self.boxes[i].is_some() && self.positions[i].x == x && self.positions[i].y == y {
                proof {
                    assert(is_box(*self, i as int) && at_cell(*self, i as int, x as int, y as int));
                }
                return true;
            }
            i += 1;
        }
        false
    }
}

} // verus!
