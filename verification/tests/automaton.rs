use sandtris::game::{ColourCode, ColourType, Game};

fn small_board() -> Game {
    Game::new(4, 23, 1)
}

fn count_colour(game: &Game) -> usize {
    let mut n = 0;
    for x in 0..game.width() {
        for y in 0..game.height() {
            if game.get_cell(x, y).is_physics() {
                n += 1;
            }
        }
    }
    n
}

fn board_empty(game: &Game) -> bool {
    for x in 0..game.width() {
        for y in 0..game.height() {
            if !game.get_cell(x, y).is_empty() {
                return false;
            }
        }
    }
    true
}

#[test]
fn spanning_run_is_cleared() {
    let mut game = small_board();
    for x in 0..4 {
        game.set_cell(x, 5, ColourType::Colour(ColourCode::Red));
    }
    game.scan_connectivity();
    for x in 0..4 {
        assert_eq!(game.get_cell(x, 5), ColourType::Deleting(ColourCode::Red, 40));
    }
}

#[test]
fn second_scan_does_not_retrigger() {
    let mut game = small_board();
    for x in 0..4 {
        game.set_cell(x, 5, ColourType::Colour(ColourCode::Red));
    }
    game.scan_connectivity();
    // let one settling sweep tick the countdowns down to 39
    game.physics_update();
    for x in 0..4 {
        assert_eq!(game.get_cell(x, 5), ColourType::Deleting(ColourCode::Red, 39));
    }
    // re-scanning must not restart the countdown at 40
    game.scan_connectivity();
    for x in 0..4 {
        assert_eq!(game.get_cell(x, 5), ColourType::Deleting(ColourCode::Red, 39));
    }
}

#[test]
fn whole_component_clears_including_extra_origin() {
    let mut game = small_board();
    // a spanning run at row 5 with a spur touching column 0 at row 6: one
    // scan clears the entire component, spur included, and the second
    // column-0 row never seeds a fresh search
    for x in 0..4 {
        game.set_cell(x, 5, ColourType::Colour(ColourCode::Green));
    }
    game.set_cell(0, 6, ColourType::Colour(ColourCode::Green));
    game.scan_connectivity();
    for x in 0..4 {
        assert_eq!(game.get_cell(x, 5), ColourType::Deleting(ColourCode::Green, 40));
    }
    assert_eq!(game.get_cell(0, 6), ColourType::Deleting(ColourCode::Green, 40));
}

#[test]
fn short_components_are_not_cleared() {
    let mut game = small_board();
    // two disjoint same-colour components, each touching the left edge but
    // not the right one
    game.set_cell(0, 3, ColourType::Colour(ColourCode::Red));
    game.set_cell(1, 3, ColourType::Colour(ColourCode::Red));
    game.set_cell(0, 8, ColourType::Colour(ColourCode::Red));
    game.set_cell(1, 8, ColourType::Colour(ColourCode::Red));
    game.set_cell(2, 8, ColourType::Colour(ColourCode::Red));
    game.scan_connectivity();
    assert_eq!(game.get_cell(0, 3), ColourType::Colour(ColourCode::Red));
    assert_eq!(game.get_cell(1, 3), ColourType::Colour(ColourCode::Red));
    assert_eq!(game.get_cell(0, 8), ColourType::Colour(ColourCode::Red));
    assert_eq!(game.get_cell(1, 8), ColourType::Colour(ColourCode::Red));
    assert_eq!(game.get_cell(2, 8), ColourType::Colour(ColourCode::Red));
}

#[test]
fn mixed_colours_do_not_connect() {
    let mut game = small_board();
    game.set_cell(0, 5, ColourType::Colour(ColourCode::Red));
    game.set_cell(1, 5, ColourType::Colour(ColourCode::Green));
    game.set_cell(2, 5, ColourType::Colour(ColourCode::Red));
    game.set_cell(3, 5, ColourType::Colour(ColourCode::Red));
    game.scan_connectivity();
    assert_eq!(game.get_cell(0, 5), ColourType::Colour(ColourCode::Red));
    assert_eq!(game.get_cell(1, 5), ColourType::Colour(ColourCode::Green));
}

#[test]
fn lone_cell_falls_one_row_per_sweep() {
    let mut game = small_board();
    game.set_cell(2, 10, ColourType::Colour(ColourCode::Blue));
    game.physics_update();
    assert_eq!(game.get_cell(2, 10), ColourType::Empty);
    assert_eq!(game.get_cell(2, 9), ColourType::Colour(ColourCode::Blue));
    for _ in 0..9 {
        game.physics_update();
    }
    assert_eq!(game.get_cell(2, 0), ColourType::Colour(ColourCode::Blue));
    assert_eq!(count_colour(&game), 1);
    // the floor row never moves
    game.physics_update();
    assert_eq!(game.get_cell(2, 0), ColourType::Colour(ColourCode::Blue));
}

#[test]
fn supported_cell_slides_right_when_alone() {
    let mut game = small_board();
    // a supported particle with both lower diagonals free: the roof pass
    // flips the bias flag once for it, so its diagonal-down decision sees
    // the flag flipped back and prefers the right side
    game.set_cell(1, 0, ColourType::Colour(ColourCode::Red));
    game.set_cell(1, 1, ColourType::Colour(ColourCode::Red));
    game.physics_update();
    assert_eq!(game.get_cell(1, 1), ColourType::Empty);
    assert_eq!(game.get_cell(2, 0), ColourType::Colour(ColourCode::Red));
    assert_eq!(game.get_cell(1, 0), ColourType::Colour(ColourCode::Red));
}

#[test]
fn bias_alternates_between_decisions() {
    let mut game = small_board();
    // two supported particles in one row: their diagonal-down decisions see
    // opposite bias flags, so the first goes left and the second, with the
    // wall on its right, goes left only as its fallback
    game.set_cell(1, 0, ColourType::Colour(ColourCode::Red));
    game.set_cell(1, 1, ColourType::Colour(ColourCode::Red));
    game.set_cell(3, 0, ColourType::Colour(ColourCode::Red));
    game.set_cell(3, 1, ColourType::Colour(ColourCode::Red));
    game.physics_update();
    assert_eq!(game.get_cell(1, 1), ColourType::Empty);
    assert_eq!(game.get_cell(3, 1), ColourType::Empty);
    assert_eq!(game.get_cell(0, 0), ColourType::Colour(ColourCode::Red));
    assert_eq!(game.get_cell(1, 0), ColourType::Colour(ColourCode::Red));
    assert_eq!(game.get_cell(2, 0), ColourType::Colour(ColourCode::Red));
    assert_eq!(game.get_cell(3, 0), ColourType::Colour(ColourCode::Red));
}

#[test]
fn blocked_cell_slides_right_on_second_decision() {
    let mut game = small_board();
    // two supported particles in one row: the second decision of the sweep
    // sees the flipped bias flag and slides right instead
    game.set_cell(0, 0, ColourType::Colour(ColourCode::Red));
    game.set_cell(0, 1, ColourType::Colour(ColourCode::Red));
    game.set_cell(2, 0, ColourType::Colour(ColourCode::Red));
    game.set_cell(2, 1, ColourType::Colour(ColourCode::Red));
    game.physics_update();
    // first decision, bias left: (0, 1) cannot go left at the wall, goes right
    assert_eq!(game.get_cell(0, 1), ColourType::Empty);
    assert_eq!(game.get_cell(1, 0), ColourType::Colour(ColourCode::Red));
    // second decision, bias right: (2, 1) goes right
    assert_eq!(game.get_cell(2, 1), ColourType::Empty);
    assert_eq!(game.get_cell(3, 0), ColourType::Colour(ColourCode::Red));
}

#[test]
fn cell_below_high_water_keeps_settling() {
    let mut game = small_board();
    game.set_cell(0, 18, ColourType::Colour(ColourCode::Red));
    game.physics_update();
    assert_eq!(game.get_cell(0, 18), ColourType::Empty);
    assert_eq!(game.get_cell(0, 17), ColourType::Colour(ColourCode::Red));
}

#[test]
fn high_water_cell_triggers_wipe() {
    let mut game = small_board();
    game.set_cell(0, 19, ColourType::Colour(ColourCode::Red));
    game.physics_update();
    assert!(board_empty(&game));
}

#[test]
fn wipe_cascades_through_countdowns() {
    let mut game = small_board();
    game.set_cell(0, 19, ColourType::Colour(ColourCode::Red));
    game.set_cell(1, 2, ColourType::Colour(ColourCode::Green));
    game.physics_update();
    // the low particle settled one row before the wipe fired, then started
    // a countdown of (23 - 1) / 10 == 2 ticks
    assert_eq!(game.get_cell(0, 19), ColourType::Empty);
    assert_eq!(game.get_cell(1, 1), ColourType::Deleting(ColourCode::Green, 2));
    game.physics_update();
    game.physics_update();
    game.physics_update();
    assert!(board_empty(&game));
}
