use sokoban::map::{init_level, load_map, MapError};
use sokoban::world::World;

fn wall_at(w: &World, x: u8, y: u8) -> bool {
    (0..w.walls.len()).any(|i| w.walls[i].is_some() && w.positions[i].x == x && w.positions[i].y == y)
}

fn player_at(w: &World, x: u8, y: u8) -> bool {
    (0..w.players.len()).any(|i| {
        w.players[i].is_some() && w.positions[i].x == x && w.positions[i].y == y
    })
}

fn box_at(w: &World, x: u8, y: u8) -> bool {
    (0..w.boxes.len()).any(|i| w.boxes[i].is_some() && w.positions[i].x == x && w.positions[i].y == y)
}

fn box_spot_at(w: &World, x: u8, y: u8) -> bool {
    (0..w.box_spots.len()).any(|i| {
        w.box_spots[i].is_some() && w.positions[i].x == x && w.positions[i].y == y
    })
}

fn floor_at(w: &World, x: u8, y: u8) -> bool {
    (0..w.renderables.len()).any(|i| {
        w.renderables[i]
            .as_ref()
            .map(|r| r.path == "/images/floor.png")
            .unwrap_or(false)
            && w.positions[i].x == x
            && w.positions[i].y == y
    })
}

fn entity_count_at(w: &World, x: u8, y: u8) -> usize {
    (0..w.positions.len()).filter(|&i| w.positions[i].x == x && w.positions[i].y == y).count()
}

#[test]
fn round_trip_layout_is_reproduced() {
    let mut w = World::new();
    let map = "N . B\nW P S".to_string();
    assert!(load_map(&mut w, map).is_ok());

    // Row 0: void, floor only, box on floor.
    assert_eq!(entity_count_at(&w, 0, 0), 0);
    assert!(floor_at(&w, 1, 0) && !wall_at(&w, 1, 0) && !box_at(&w, 1, 0));
    assert!(box_at(&w, 2, 0) && floor_at(&w, 2, 0));
    assert!(!wall_at(&w, 2, 0) && !player_at(&w, 2, 0));

    // Row 1: wall, player, goal, each with a floor beneath.
    assert!(wall_at(&w, 0, 1) && floor_at(&w, 0, 1));
    assert!(player_at(&w, 1, 1) && floor_at(&w, 1, 1));
    assert!(box_spot_at(&w, 2, 1) && floor_at(&w, 2, 1));
    assert!(!box_at(&w, 0, 1) && !box_at(&w, 1, 1) && !box_at(&w, 2, 1));

    // Nothing outside the three columns and two rows.
    assert_eq!(entity_count_at(&w, 3, 0), 0);
    assert_eq!(entity_count_at(&w, 0, 2), 0);
}

#[test]
fn draw_heights_follow_entity_kind() {
    let mut w = World::new();
    assert!(load_map(&mut w, "W P B S .".to_string()).is_ok());
    for i in 0..w.positions.len() {
        let z = w.positions[i].z;
        if w.walls[i].is_some() || w.players[i].is_some() || w.boxes[i].is_some() {
            assert_eq!(z, 10);
        } else if w.box_spots[i].is_some() {
            assert_eq!(z, 9);
        } else {
            assert_eq!(z, 5);
        }
    }
}

#[test]
fn tag_discipline_follows_data_model() {
    let mut w = World::new();
    assert!(load_map(&mut w, "W P B S .".to_string()).is_ok());
    for i in 0..w.positions.len() {
        if w.players[i].is_some() || w.boxes[i].is_some() {
            assert!(w.movables[i].is_some());
            assert!(w.immovables[i].is_none());
        }
        if w.walls[i].is_some() {
            assert!(w.immovables[i].is_some());
            assert!(w.movables[i].is_none());
        }
        if w.box_spots[i].is_some() {
            assert!(w.movables[i].is_none() && w.immovables[i].is_none());
        }
    }
}

#[test]
fn unrecognized_token_is_rejected() {
    let mut w = World::new();
    assert_eq!(load_map(&mut w, "W . X".to_string()), Err(MapError::UnrecognizedItem));
    assert_eq!(w.positions.len(), 0);
}

#[test]
fn doubled_space_makes_empty_token() {
    let mut w = World::new();
    assert_eq!(load_map(&mut w, "W  .".to_string()), Err(MapError::UnrecognizedItem));
}

#[test]
fn multi_character_token_is_rejected() {
    let mut w = World::new();
    assert_eq!(load_map(&mut w, "WW .".to_string()), Err(MapError::UnrecognizedItem));
}

#[test]
fn empty_description_is_rejected() {
    let mut w = World::new();
    assert_eq!(load_map(&mut w, "".to_string()), Err(MapError::UnrecognizedItem));
}

#[test]
fn row_of_257_tokens_is_too_large() {
    let mut w = World::new();
    let mut map = String::new();
    for _ in 0..257 {
        map.push_str(". ");
    }
    map.push('.');
    // 258 tokens in one row.
    assert_eq!(load_map(&mut w, map), Err(MapError::MapTooLarge));
    assert_eq!(w.positions.len(), 0);
}

#[test]
fn grid_of_257_rows_is_too_large() {
    let mut w = World::new();
    let mut map = String::new();
    for _ in 0..257 {
        map.push_str(".\n");
    }
    assert_eq!(load_map(&mut w, map), Err(MapError::MapTooLarge));
}

#[test]
fn bad_token_reported_before_size() {
    let mut w = World::new();
    let mut map = String::new();
    for _ in 0..257 {
        map.push_str(". ");
    }
    map.push('X');
    assert_eq!(load_map(&mut w, map), Err(MapError::UnrecognizedItem));
}

#[test]
fn exactly_256_columns_fit() {
    let mut w = World::new();
    let mut map = String::new();
    for _ in 0..255 {
        map.push_str(". ");
    }
    map.push('P');
    assert!(load_map(&mut w, map).is_ok());
    assert!(player_at(&w, 255, 0));
}

#[test]
fn windows_line_endings_are_trimmed() {
    let mut w = World::new();
    assert!(load_map(&mut w, "W .\r\nP .\r\n".to_string()).is_ok());
    assert!(wall_at(&w, 0, 0));
    assert!(player_at(&w, 0, 1));
}

#[test]
fn padding_whitespace_is_trimmed() {
    let mut w = World::new();
    assert!(load_map(&mut w, "\n   W .\n   . P   \n".to_string()).is_ok());
    assert!(wall_at(&w, 0, 0));
    assert!(player_at(&w, 1, 1));
}

#[test]
fn shipped_level_loads() {
    let mut w = World::new();
    assert!(init_level(&mut w).is_ok());
    assert!(player_at(&w, 2, 4));
    assert!(box_at(&w, 4, 2));
    assert!(box_spot_at(&w, 3, 6));
    assert!(wall_at(&w, 2, 0) && !wall_at(&w, 0, 0));
    assert_eq!(entity_count_at(&w, 0, 0), 0);
    assert_eq!(entity_count_at(&w, 1, 0), 0);
    assert!(wall_at(&w, 0, 1) && wall_at(&w, 8, 8));
}
