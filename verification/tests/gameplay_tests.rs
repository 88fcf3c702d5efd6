use sokoban::gameplay_state_system::{evaluate, GameplayStateSystem};
use sokoban::input_system::resolve;
use sokoban::map::load_map;
use sokoban::resources::{Direction, Gameplay, GameplayState, InputQueue};
use sokoban::world::World;

fn world_of(map: &str) -> World {
    let mut w = World::new();
    assert!(load_map(&mut w, map.to_string()).is_ok());
    w
}

#[test]
fn uncovered_goal_means_playing() {
    let w = world_of("P B S");
    assert_eq!(evaluate(&w), GameplayState::Playing);
}

#[test]
fn every_goal_covered_means_won() {
    // A box standing on the goal cell: `B` and `S` share no token,
    // so put the box there by pushing it.
    let mut w = world_of("P B S");
    assert!(resolve(Direction::Right, &mut w));
    assert_eq!(evaluate(&w), GameplayState::Won);
}

#[test]
fn one_of_two_goals_covered_means_playing() {
    let mut w = world_of("P B S S");
    assert!(resolve(Direction::Right, &mut w));
    assert_eq!(evaluate(&w), GameplayState::Playing);
}

#[test]
fn spare_boxes_off_goal_are_fine() {
    let mut w = world_of(". B .\nP B S");
    assert!(resolve(Direction::Right, &mut w));
    assert_eq!(evaluate(&w), GameplayState::Won);
}

#[test]
fn no_goals_means_won_vacuously() {
    let w = world_of("P B .");
    assert_eq!(evaluate(&w), GameplayState::Won);
}

#[test]
fn push_box_onto_goal_in_two_moves() {
    // The row W . B . S with the player just left of the box: two
    // pushes to the right land the box on the only goal.
    let mut w = world_of("W . B . S\nN P N N N");
    // The player starts below the row and first steps up, onto the
    // cell just left of the box.
    assert!(resolve(Direction::Up, &mut w));
    assert_eq!(evaluate(&w), GameplayState::Playing);
    assert!(resolve(Direction::Right, &mut w));
    assert_eq!(evaluate(&w), GameplayState::Playing);
    assert!(resolve(Direction::Right, &mut w));
    assert_eq!(evaluate(&w), GameplayState::Won);
}

#[test]
fn state_system_records_the_outcome() {
    let mut w = world_of("P B S");
    let mut gameplay = Gameplay::default();
    gameplay.moves_count = 7;
    let system = GameplayStateSystem {};
    system.run(&mut gameplay, &w);
    assert_eq!(gameplay.state, GameplayState::Playing);
    assert_eq!(gameplay.moves_count, 7);
    assert!(resolve(Direction::Right, &mut w));
    system.run(&mut gameplay, &w);
    assert_eq!(gameplay.state, GameplayState::Won);
}

#[test]
fn gameplay_state_text() {
    assert_eq!(GameplayState::Playing.as_str(), "Playing");
    assert_eq!(GameplayState::Won.as_str(), "Won");
}

#[test]
fn defaults_start_a_fresh_game() {
    let gameplay = Gameplay::default();
    assert_eq!(gameplay.state, GameplayState::Playing);
    assert_eq!(gameplay.moves_count, 0);
    assert_eq!(GameplayState::default(), GameplayState::Playing);
    let queue = InputQueue::default();
    assert!(queue.keys_pressed.is_empty());
}

#[test]
fn player_uniqueness_is_detectable() {
    let one = world_of("P .");
    assert!(one.has_at_most_one_player());
    let none = world_of(". B");
    assert!(none.has_at_most_one_player());
    let two = world_of("P P");
    assert!(!two.has_at_most_one_player());
}
