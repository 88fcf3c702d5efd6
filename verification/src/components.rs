use vstd::prelude::*;

verus! {

/// Grid coordinate of an entity. `x` grows to the right, `y` grows
/// downwards; `z` orders drawing only and never affects gameplay.
#[derive(Clone, Copy, Debug, PartialEq, Eq, Structural)]
pub struct Position {
    pub x: u8,
    pub y: u8,
    pub z: u8,
}

/// Image shown for an entity by the presentation layer.
#[derive(Debug)]
pub struct Renderable {
    pub path: String,
}

/// Tag of a wall tile; a wall is always also `Immovable`.
#[derive(Clone, Copy, Debug)]
pub struct Wall {}

/// Tag of the player; the player is always also `Movable`.
#[derive(Clone, Copy, Debug)]
pub struct Player {}

/// Tag of a pushable crate; a box is always also `Movable`.
#[derive(Clone, Copy, Debug)]
pub struct Box {}

/// Tag of a goal tile that every box must come to rest on; it is
/// stationary and neither blocks nor is pushed.
#[derive(Clone, Copy, Debug)]
pub struct BoxSpot {}

/// Tag of an entity that blocks a push chain outright.
#[derive(Clone, Copy, Debug, Default)]
pub struct Immovable;

/// Tag of an entity that a push chain carries along.
#[derive(Clone, Copy, Debug, Default)]
pub struct Movable;

} // verus!
