use sokoban::input_system::{resolve, InputSystem};
use sokoban::map::load_map;
use sokoban::resources::{Direction, Gameplay, InputQueue};
use sokoban::world::World;

fn world_of(map: &str) -> World {
    let mut w = World::new();
    assert!(load_map(&mut w, map.to_string()).is_ok());
    w
}

fn player_pos(w: &World) -> (u8, u8) {
    for i in 0..w.players.len() {
        if w.players[i].is_some() {
            return (w.positions[i].x, w.positions[i].y);
        }
    }
    panic!("no player in world");
}

fn box_positions(w: &World) -> Vec<(u8, u8)> {
    let mut r = Vec::new();
    for i in 0..w.boxes.len() {
        if w.boxes[i].is_some() {
            r.push((w.positions[i].x, w.positions[i].y));
        }
    }
    r.sort();
    r
}

fn all_positions(w: &World) -> Vec<(u8, u8, u8)> {
    w.positions.iter().map(|p| (p.x, p.y, p.z)).collect()
}

#[test]
fn free_player_moves_right() {
    let mut w = world_of(". . .\n. P .\n. . .");
    assert!(resolve(Direction::Right, &mut w));
    assert_eq!(player_pos(&w), (2, 1));
}

#[test]
fn free_player_moves_left() {
    let mut w = world_of(". . .\n. P .\n. . .");
    assert!(resolve(Direction::Left, &mut w));
    assert_eq!(player_pos(&w), (0, 1));
}

#[test]
fn free_player_moves_up() {
    let mut w = world_of(". . .\n. P .\n. . .");
    assert!(resolve(Direction::Up, &mut w));
    assert_eq!(player_pos(&w), (1, 0));
}

#[test]
fn free_player_moves_down() {
    let mut w = world_of(". . .\n. P .\n. . .");
    assert!(resolve(Direction::Down, &mut w));
    assert_eq!(player_pos(&w), (1, 2));
}

#[test]
fn free_move_shifts_nothing_else() {
    let mut w = world_of(". . .\n. P .\n. B .");
    let before = all_positions(&w);
    assert!(resolve(Direction::Right, &mut w));
    let after = all_positions(&w);
    for i in 0..before.len() {
        if before[i] == (1, 1, 10) {
            assert_eq!(after[i], (2, 1, 10));
        } else {
            assert_eq!(after[i], before[i]);
        }
    }
}

#[test]
fn chain_of_two_boxes_is_pushed() {
    let mut w = world_of(". P B B .");
    assert!(resolve(Direction::Right, &mut w));
    assert_eq!(player_pos(&w), (2, 0));
    assert_eq!(box_positions(&w), vec![(3, 0), (4, 0)]);
}

#[test]
fn chain_blocked_by_wall_holds_everything() {
    let mut w = world_of("P B B W");
    let before = all_positions(&w);
    assert!(!resolve(Direction::Right, &mut w));
    assert_eq!(all_positions(&w), before);
}

#[test]
fn player_against_wall_does_not_move() {
    let mut w = world_of("P W");
    assert!(!resolve(Direction::Right, &mut w));
    assert_eq!(player_pos(&w), (0, 0));
}

#[test]
fn leftmost_player_cannot_move_left() {
    let mut w = world_of("P .");
    let before = all_positions(&w);
    assert!(!resolve(Direction::Left, &mut w));
    assert_eq!(player_pos(&w), (0, 0));
    assert_eq!(all_positions(&w), before);
}

#[test]
fn topmost_player_cannot_move_up() {
    let mut w = world_of("P\n.");
    assert!(!resolve(Direction::Up, &mut w));
    assert_eq!(player_pos(&w), (0, 0));
}

#[test]
fn push_off_grid_edge_is_blocked() {
    let mut map = String::new();
    for _ in 0..254 {
        map.push_str("N ");
    }
    map.push_str("P B");
    let mut w = world_of(&map);
    assert_eq!(player_pos(&w), (254, 0));
    assert!(!resolve(Direction::Right, &mut w));
    assert_eq!(player_pos(&w), (254, 0));
    assert_eq!(box_positions(&w), vec![(255, 0)]);
}

#[test]
fn move_past_map_text_into_empty_grid_commits() {
    // The drawn map ends at column 1, but the grid goes on: the
    // cell beyond holds nothing and does not block.
    let mut w = world_of("P B");
    assert!(resolve(Direction::Right, &mut w));
    assert_eq!(player_pos(&w), (1, 0));
    assert_eq!(box_positions(&w), vec![(2, 0)]);
}

#[test]
fn world_without_player_is_a_no_op() {
    let mut w = world_of(". B W");
    let before = all_positions(&w);
    assert!(!resolve(Direction::Right, &mut w));
    assert_eq!(all_positions(&w), before);
}

#[test]
fn goal_tile_does_not_block_a_push() {
    let mut w = world_of("P B S");
    assert!(resolve(Direction::Right, &mut w));
    assert_eq!(player_pos(&w), (1, 0));
    assert_eq!(box_positions(&w), vec![(2, 0)]);
}

#[test]
fn queue_is_drained_oldest_first() {
    let mut w = world_of(". P .");
    let mut queue = InputQueue::default();
    let mut gameplay = Gameplay::default();
    queue.keys_pressed.push(Direction::Right);
    queue.keys_pressed.push(Direction::Up);
    let system = InputSystem {};
    system.run(&mut w, &mut queue, &mut gameplay);
    assert_eq!(player_pos(&w), (2, 0));
    assert_eq!(queue.keys_pressed, vec![Direction::Up]);
}

#[test]
fn committed_move_counts_once() {
    let mut w = world_of(". P .");
    let mut queue = InputQueue::default();
    let mut gameplay = Gameplay::default();
    queue.keys_pressed.push(Direction::Right);
    let system = InputSystem {};
    system.run(&mut w, &mut queue, &mut gameplay);
    assert_eq!(gameplay.moves_count, 1);
}

#[test]
fn blocked_move_does_not_count() {
    let mut w = world_of("P W");
    let mut queue = InputQueue::default();
    let mut gameplay = Gameplay::default();
    queue.keys_pressed.push(Direction::Right);
    let system = InputSystem {};
    system.run(&mut w, &mut queue, &mut gameplay);
    assert_eq!(gameplay.moves_count, 0);
    assert_eq!(player_pos(&w), (0, 0));
}

#[test]
fn empty_queue_changes_nothing() {
    let mut w = world_of(". P .");
    let mut queue = InputQueue::default();
    let mut gameplay = Gameplay::default();
    let system = InputSystem {};
    system.run(&mut w, &mut queue, &mut gameplay);
    assert_eq!(player_pos(&w), (1, 0));
    assert_eq!(gameplay.moves_count, 0);
}
