use vstd::prelude::*;

use crate::components::{Box, BoxSpot, Immovable, Movable, Player, Position, Renderable, Wall};
use crate::world::World;

verus! {

/// Draw height of floor tiles.
pub const Z_FLOOR: u8 = 5;

/// Draw height of goal tiles, above the floor and below what can
/// stand on them.
pub const Z_BOX_SPOT: u8 = 9;

/// Draw height of walls, boxes and the player.
pub const Z_ACTOR: u8 = 10;

/// One entity was appended: the position column grew by the new
/// entity's cell `(x, y)` at draw height `z`, and the renderable
/// column by the image at `path`, with the earlier slots untouched.
pub open spec fn entity_appended(w0: World, w1: World, x: u8, y: u8, z: u8, path: Seq<
    char,
>) -> bool {
    &&& w1.positions@ == w0.positions@.push(Position { x, y, z })
    &&& w1.renderables@.len() == w0.renderables@.len() + 1
    &&& forall|i: int|
        0 <= i < w0.renderables@.len() ==> w1.renderables@[i] == w0.renderables@[i]
    &&& w1.renderables@.last() is Some
    &&& w1.renderables@.last()->0.path@ == path
}

/// Creates a wall: an immovable blocking tile.
pub fn create_wall(world: &mut World, position: Position)
    ensures
        entity_appended(
            *old(world),
            *final(world),
            position.x,
            position.y,
            Z_ACTOR,
            "/images/wall.png"@,
        ),
        final(world).walls@ == old(world).walls@.push(Some(Wall {})),
        final(world).players@ == old(world).players@.push(None::<Player>),
        final(world).boxes@ == old(world).boxes@.push(None::<Box>),
        final(world).box_spots@ == old(world).box_spots@.push(None::<BoxSpot>),
        final(world).movables@ == old(world).movables@.push(None::<Movable>),
        final(world).immovables@ == old(world).immovables@.push(Some(Immovable)),
{
    world.positions.push(Position { x: position.x, y: position.y, z: Z_ACTOR });
    world.renderables.push(Some(Renderable { path: "/images/wall.png".to_owned() }));
    world.walls.push(Some(Wall {}));
    world.players.push(None);
    world.boxes.push(None);
    world.box_spots.push(None);
    world.movables.push(None);
    world.immovables.push(Some(Immovable));
}

/// Creates a floor tile: pure scenery that neither blocks nor moves.
pub fn create_floor(world: &mut World, position: Position)
    ensures
        entity_appended(
            *old(world),
            *final(world),
            position.x,
            position.y,
            Z_FLOOR,
            "/images/floor.png"@,
        ),
        final(world).walls@ == old(world).walls@.push(None::<Wall>),
        final(world).players@ == old(world).players@.push(None::<Player>),
        final(world).boxes@ == old(world).boxes@.push(None::<Box>),
        final(world).box_spots@ == old(world).box_spots@.push(None::<BoxSpot>),
        final(world).movables@ == old(world).movables@.push(None::<Movable>),
        final(world).immovables@ == old(world).immovables@.push(None::<Immovable>),
{
    world.positions.push(Position { x: position.x, y: position.y, z: Z_FLOOR });
    world.renderables.push(Some(Renderable { path: "/images/floor.png".to_owned() }));
    world.walls.push(None);
    world.players.push(None);
    world.boxes.push(None);
    world.box_spots.push(None);
    world.movables.push(None);
    world.immovables.push(None);
}

/// Creates a box: a movable crate that a push chain carries along.
pub fn create_box(world: &mut World, position: Position)
    ensures
        entity_appended(
            *old(world),
            *final(world),
            position.x,
            position.y,
            Z_ACTOR,
            "/images/box.png"@,
        ),
        final(world).walls@ == old(world).walls@.push(None::<Wall>),
        final(world).players@ == old(world).players@.push(None::<Player>),
        final(world).boxes@ == old(world).boxes@.push(Some(Box {})),
        final(world).box_spots@ == old(world).box_spots@.push(None::<BoxSpot>),
        final(world).movables@ == old(world).movables@.push(Some(Movable)),
        final(world).immovables@ == old(world).immovables@.push(None::<Immovable>),
{
    world.positions.push(Position { x: position.x, y: position.y, z: Z_ACTOR });
    world.renderables.push(Some(Renderable { path: "/images/box.png".to_owned() }));
    world.walls.push(None);
    world.players.push(None);
    world.boxes.push(Some(Box {}));
    world.box_spots.push(None);
    world.movables.push(Some(Movable));
    world.immovables.push(None);
}

/// Creates a goal tile: stationary, and transparent to push chains.
pub fn create_box_spot(world: &mut World, position: Position)
    ensures
        entity_appended(
            *old(world),
            *final(world),
            position.x,
            position.y,
            Z_BOX_SPOT,
            "/images/box_spot.png"@,
        ),
        final(world).walls@ == old(world).walls@.push(None::<Wall>),
        final(world).players@ == old(world).players@.push(None::<Player>),
        final(world).boxes@ == old(world).boxes@.push(None::<Box>),
        final(world).box_spots@ == old(world).box_spots@.push(Some(BoxSpot {})),
        final(world).movables@ == old(world).movables@.push(None::<Movable>),
        final(world).immovables@ == old(world).immovables@.push(None::<Immovable>),
{
    world.positions.push(Position { x: position.x, y: position.y, z: Z_BOX_SPOT });
    world.renderables.push(Some(Renderable { path: "/images/box_spot.png".to_owned() }));
    world.walls.push(None);
    world.players.push(None);
    world.boxes.push(None);
    world.box_spots.push(Some(BoxSpot {}));
    world.movables.push(None);
    world.immovables.push(None);
}

/// Creates the player: the movable entity that directional input
/// drives.
pub fn create_player(world: &mut World, position: Position)
    ensures
        entity_appended(
            *old(world),
            *final(world),
            position.x,
            position.y,
            Z_ACTOR,
            "/images/player.png"@,
        ),
        final(world).walls@ == old(world).walls@.push(None::<Wall>),
        final(world).players@ == old(world).players@.push(Some(Player {})),
        final(world).boxes@ == old(world).boxes@.push(None::<Box>),
        final(world).box_spots@ == old(world).box_spots@.push(None::<BoxSpot>),
        final(world).movables@ == old(world).movables@.push(Some(Movable)),
        final(world).immovables@ == old(world).immovables@.push(None::<Immovable>),
{
    world.positions.push(Position { x: position.x, y: position.y, z: Z_ACTOR });
    world.renderables.push(Some(Renderable { path: "/images/player.png".to_owned() }));
    world.walls.push(None);
    world.players.push(Some(Player {}));
    world.boxes.push(None);
    world.box_spots.push(None);
    world.movables.push(Some(Movable));
    world.immovables.push(None);
}

} // verus!
