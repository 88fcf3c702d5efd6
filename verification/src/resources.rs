use vstd::prelude::*;

verus! {

/// A directional input event; every other key is discarded before it
/// reaches the core.
#[derive(Clone, Copy, Debug, PartialEq, Eq, Structural)]
pub enum Direction {
    Up,
    Down,
    Left,
    Right,
}

/// Buffered directional inputs, oldest first; the resolver drains at
/// most one per tick, in arrival order.
pub struct InputQueue {
    pub keys_pressed: Vec<Direction>,
}

impl Default for InputQueue {
    fn default() -> (q: InputQueue)
        ensures
            q.keys_pressed@.len() == 0,
    {
        InputQueue { keys_pressed: Vec::new() }
    }
}

/// Whether the puzzle is still being played or has been solved.
#[derive(Clone, Copy, Debug, PartialEq, Eq, Structural)]
pub enum GameplayState {
    Playing,
    Won,
}

impl Default for GameplayState {
    fn default() -> (s: GameplayState)
        ensures
            s == GameplayState::Playing,
    {
        GameplayState::Playing
    }
}

impl GameplayState {
    /// Text shown for the state by the presentation layer.
    pub fn as_str(&self) -> (s: &'static str)
        ensures
            *self == GameplayState::Playing ==> s@ == "Playing"@,
            *self == GameplayState::Won ==> s@ == "Won"@,
    {
        match self {
            GameplayState::Playing => "Playing",
            GameplayState::Won => "Won",
        }
    }
}

/// The shared game-state record that the presentation layer reads.
#[derive(Clone, Copy, Debug)]
pub struct Gameplay {
    pub state: GameplayState,
    pub moves_count: u32,
}

impl Default for Gameplay {
    fn default() -> (g: Gameplay)
        ensures
            g.state == GameplayState::Playing,
            g.moves_count == 0,
    {
        Gameplay { state: GameplayState::Playing, moves_count: 0 }
    }
}

} // verus!
