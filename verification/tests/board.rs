use sandtris::game::{ColourCode, ColourType, Game};
use sandtris::game::tetromino::TetrominoShape;

fn small_board() -> Game {
    // the narrowest, shortest board the spawn band allows: 4 squares wide,
    // 23 squares tall, one sub-pixel per square
    Game::new(4, 23, 1)
}

fn piece_cells(game: &Game) -> Vec<(usize, usize)> {
    let mut v = Vec::new();
    for x in 0..game.width() {
        for y in 0..game.height() {
            if let ColourType::NoPhysicsColour(_) = game.get_cell(x, y) {
                v.push((x, y));
            }
        }
    }
    v
}

fn snapshot(game: &Game) -> Vec<ColourType> {
    let mut v = Vec::new();
    for x in 0..game.width() {
        for y in 0..game.height() {
            v.push(game.get_cell(x, y));
        }
    }
    v
}

#[test]
fn new_board_is_empty() {
    let game = small_board();
    for x in 0..4 {
        for y in 0..23 {
            assert_eq!(game.get_cell(x, y), ColourType::Empty);
        }
    }
    assert!(game.piece().is_none());
}

#[test]
fn spawn_places_piece_cells() {
    let mut game = small_board();
    game.spawn_with(TetrominoShape::Square, ColourCode::Red, 100);
    assert!(game.piece().is_some());
    let mut cells = piece_cells(&game);
    cells.sort();
    assert_eq!(cells, vec![(1, 20), (1, 21), (2, 20), (2, 21)]);
    for &(x, y) in &cells {
        assert_eq!(game.get_cell(x, y), ColourType::NoPhysicsColour(ColourCode::Red));
    }
}

#[test]
fn move_left_stops_at_wall() {
    let mut game = small_board();
    game.spawn_with(TetrominoShape::Square, ColourCode::Red, 100);
    game.move_left();
    let mut cells = piece_cells(&game);
    cells.sort();
    assert_eq!(cells, vec![(0, 20), (0, 21), (1, 20), (1, 21)]);
    // a second request has nowhere to go and changes nothing
    let before = snapshot(&game);
    game.move_left();
    assert_eq!(snapshot(&game), before);
}

#[test]
fn move_right_stops_at_wall() {
    let mut game = small_board();
    game.spawn_with(TetrominoShape::Square, ColourCode::Green, 100);
    game.move_right();
    let mut cells = piece_cells(&game);
    cells.sort();
    assert_eq!(cells, vec![(2, 20), (2, 21), (3, 20), (3, 21)]);
    let before = snapshot(&game);
    game.move_right();
    assert_eq!(snapshot(&game), before);
}

#[test]
fn move_blocked_by_settled_cell() {
    let mut game = small_board();
    game.set_cell(0, 20, ColourType::Colour(ColourCode::Blue));
    game.spawn_with(TetrominoShape::Square, ColourCode::Red, 100);
    let before = snapshot(&game);
    // the obstacle at (0, 20) blocks the single-pixel shift left
    game.move_left();
    assert_eq!(snapshot(&game), before);
    assert_eq!(game.get_cell(0, 20), ColourType::Colour(ColourCode::Blue));
}

#[test]
fn rotation_rejected_when_blocked() {
    let mut game = small_board();
    // the rotated footprint of the L piece would cover (3, 21)
    game.set_cell(3, 21, ColourType::Colour(ColourCode::Blue));
    game.spawn_with(TetrominoShape::LShape, ColourCode::Red, 100);
    let before = snapshot(&game);
    let rot_before = game.piece().unwrap().rotation;
    game.rotate();
    assert_eq!(snapshot(&game), before);
    assert_eq!(game.piece().unwrap().rotation, rot_before);
}

#[test]
fn rotation_applies_when_free() {
    let mut game = small_board();
    game.spawn_with(TetrominoShape::LShape, ColourCode::Red, 100);
    game.rotate();
    assert_eq!(game.piece().unwrap().rotation, 1);
    let mut cells = piece_cells(&game);
    cells.sort();
    assert_eq!(cells, vec![(1, 21), (1, 22), (2, 21), (3, 21)]);
}

#[test]
fn hard_drop_locks_at_floor() {
    let mut game = small_board();
    game.spawn_with(TetrominoShape::Square, ColourCode::Violet, 50);
    game.move_down_amount(10_000);
    assert!(game.piece().is_none());
    for &(x, y) in &[(1usize, 0usize), (1, 1), (2, 0), (2, 1)] {
        assert_eq!(game.get_cell(x, y), ColourType::Colour(ColourCode::Violet));
    }
    // the spawn band is vacated
    for y in 20..22 {
        for x in 1..3 {
            assert_eq!(game.get_cell(x, y), ColourType::Empty);
        }
    }
}

#[test]
fn soft_drop_moves_one_square() {
    let mut game = small_board();
    game.spawn_with(TetrominoShape::Square, ColourCode::Red, 50);
    let y0 = game.piece().unwrap().position.1;
    game.move_down();
    assert_eq!(game.piece().unwrap().position.1, y0 - 1);
    assert!(game.piece().is_some());
}

#[test]
fn drop_lands_on_settled_stack() {
    let mut game = small_board();
    game.set_cell(1, 0, ColourType::Colour(ColourCode::Blue));
    game.set_cell(2, 0, ColourType::Colour(ColourCode::Blue));
    game.spawn_with(TetrominoShape::Square, ColourCode::Red, 50);
    game.move_down_amount(10_000);
    assert!(game.piece().is_none());
    for &(x, y) in &[(1usize, 1usize), (1, 2), (2, 1), (2, 2)] {
        assert_eq!(game.get_cell(x, y), ColourType::Colour(ColourCode::Red));
    }
    assert_eq!(game.get_cell(1, 0), ColourType::Colour(ColourCode::Blue));
}

#[test]
fn deleting_cell_blocks_movement() {
    let mut game = small_board();
    game.set_cell(0, 20, ColourType::Deleting(ColourCode::Blue, 7));
    game.spawn_with(TetrominoShape::Square, ColourCode::Red, 100);
    let before = snapshot(&game);
    game.move_left();
    assert_eq!(snapshot(&game), before);
}

#[test]
fn rotation_rejected_out_of_bounds() {
    let mut game = small_board();
    game.spawn_with(TetrominoShape::Line, ColourCode::Green, 100);
    game.move_right();
    game.move_right();
    // the vertical line hugs the right wall; its horizontal footprint would
    // leave the board
    let before = snapshot(&game);
    game.rotate();
    assert_eq!(snapshot(&game), before);
    assert_eq!(game.piece().unwrap().rotation, 0);
}

#[test]
fn game_update_spawns_after_cooldown() {
    let mut game = small_board();
    let mut rng = rand::thread_rng();
    game.game_update(&mut rng, 20);
    assert!(game.piece().is_none());
    game.game_update(&mut rng, 31);
    assert!(game.piece().is_some());
}

#[test]
fn game_update_applies_periodic_gravity() {
    let mut game = small_board();
    let mut rng = rand::thread_rng();
    game.spawn_with(TetrominoShape::Square, ColourCode::Red, 1);
    let y0 = game.piece().unwrap().position.1;
    // 30 - 1 == 29: the gravity step fires on this tick
    game.game_update(&mut rng, 30);
    assert_eq!(game.piece().unwrap().position.1, y0 - 1);
    // on the next tick (30 - 1 == 29 fails) it does not
    game.game_update(&mut rng, 31);
    assert_eq!(game.piece().unwrap().position.1, y0 - 1);
}
