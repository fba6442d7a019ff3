use sandtris::game::{ColourCode, ColourType, Rgb, Toggle};
use sandtris::game::tetromino::{Tetromino, TetrominoShape};

fn all_shapes() -> Vec<TetrominoShape> {
    vec![
        TetrominoShape::LShape,
        TetrominoShape::ReverseLShape,
        TetrominoShape::ZShape,
        TetrominoShape::ReverseZShape,
        TetrominoShape::Line,
        TetrominoShape::Square,
    ]
}

#[test]
fn pixel_enumeration_count_and_bounds() {
    // every shape occupies four mask cells, so the enumeration yields
    // 4 * s * s pixels, all within the 4s x 4s square at the position
    let s: u32 = 3;
    for shape in all_shapes() {
        for rotation in 0u8..4 {
            let t = Tetromino::new(shape, (5, 7), rotation);
            let mut it = t.get_all_pixels(s);
            let mut count = 0;
            while let Some((px, py)) = it.next() {
                assert!(5 <= px && px < 5 + 4 * 3);
                assert!(7 <= py && py < 7 + 4 * 3);
                count += 1;
            }
            assert_eq!(count, 4 * 3 * 3);
        }
    }
}

#[test]
fn pixel_enumeration_order() {
    // mask cells are visited column-major, sub-pixels with the vertical
    // offset innermost; for the square piece at resolution 2 the first
    // occupied mask cell is column 1, row 1
    let t = Tetromino::new(TetrominoShape::Square, (0, 0), 0);
    let mut it = t.get_all_pixels(2);
    assert_eq!(it.next(), Some((2, 2)));
    assert_eq!(it.next(), Some((2, 3)));
    assert_eq!(it.next(), Some((3, 2)));
    assert_eq!(it.next(), Some((3, 3)));
    // next occupied cell in the same mask column: row 2
    assert_eq!(it.next(), Some((2, 4)));
}

#[test]
fn pixel_iterator_skip_until_valid() {
    let t = Tetromino::new(TetrominoShape::Square, (0, 0), 0);
    let mut it = t.get_all_pixels(1);
    // without the skip request the cursor already rests on a valid pixel
    it.skip_until_valid(false);
    assert_eq!(it.next(), Some((1, 1)));
    // with it, the pixel under the cursor is stepped over
    it.skip_until_valid(true);
    assert_eq!(it.next(), Some((2, 1)));
}

#[test]
fn pixels_match_iterator() {
    let t = Tetromino::new(TetrominoShape::Line, (4, 4), 1);
    let v = t.pixels(2);
    let mut it = t.get_all_pixels(2);
    for p in &v {
        assert_eq!(it.next(), Some(*p));
    }
    assert_eq!(it.next(), None);
}

#[test]
fn get_shape_line_masks() {
    let t = Tetromino::new(TetrominoShape::Line, (0, 0), 0);
    let m = t.get_shape();
    for sy in 0..4 {
        for sx in 0..4 {
            assert_eq!(m[sy][sx], sx == 1);
        }
    }
    let t = Tetromino::new(TetrominoShape::Line, (0, 0), 1);
    let m = t.get_shape();
    for sy in 0..4 {
        for sx in 0..4 {
            assert_eq!(m[sy][sx], sy == 2);
        }
    }
}

#[test]
fn colour_code_rgb() {
    assert_eq!(ColourCode::Red.to_rgb(), Rgb { r: 255, g: 0, b: 0 });
    assert_eq!(ColourCode::Green.to_rgb(), Rgb { r: 0, g: 255, b: 0 });
    assert_eq!(ColourCode::Blue.to_rgb(), Rgb { r: 0, g: 0, b: 255 });
    assert_eq!(ColourCode::Violet.to_rgb(), Rgb { r: 195, g: 0, b: 255 });
}

#[test]
fn cell_rgb_blinks_during_deletion() {
    let bg = Rgb { r: 9, g: 9, b: 9 };
    assert_eq!(ColourType::Empty.to_rgb(bg), bg);
    assert_eq!(ColourType::Colour(ColourCode::Green).to_rgb(bg), ColourCode::Green.to_rgb());
    assert_eq!(
        ColourType::NoPhysicsColour(ColourCode::Blue).to_rgb(bg),
        ColourCode::Blue.to_rgb()
    );
    // (15 / 10) % 2 == 1: background phase of the blink
    assert_eq!(ColourType::Deleting(ColourCode::Red, 15).to_rgb(bg), bg);
    // (9 / 10) % 2 == 0: colour phase
    assert_eq!(ColourType::Deleting(ColourCode::Red, 9).to_rgb(bg), ColourCode::Red.to_rgb());
    // (25 / 10) % 2 == 0: colour phase again
    assert_eq!(ColourType::Deleting(ColourCode::Red, 25).to_rgb(bg), ColourCode::Red.to_rgb());
}

#[test]
fn with_physics_keeps_colour() {
    let mut c = ColourType::NoPhysicsColour(ColourCode::Green);
    let locked = c.with_physics();
    assert_eq!(locked, ColourType::Colour(ColourCode::Green));
    assert_eq!(c, ColourType::NoPhysicsColour(ColourCode::Green));
    let mut d = ColourType::Colour(ColourCode::Violet);
    assert_eq!(d.with_physics(), ColourType::Colour(ColourCode::Violet));
}

#[test]
fn set_deleting_keeps_colour() {
    let mut c = ColourType::Colour(ColourCode::Blue);
    c.set_deleting(40);
    assert_eq!(c, ColourType::Deleting(ColourCode::Blue, 40));
    c.set_deleting(12);
    assert_eq!(c, ColourType::Deleting(ColourCode::Blue, 12));
}

#[test]
fn cell_predicates() {
    assert!(ColourType::Empty.is_empty());
    assert!(!ColourType::Colour(ColourCode::Red).is_empty());
    assert!(ColourType::Colour(ColourCode::Red).is_physics());
    assert!(!ColourType::NoPhysicsColour(ColourCode::Red).is_physics());
    assert!(!ColourType::Deleting(ColourCode::Red, 1).is_physics());
}

#[test]
fn toggle_alternates() {
    let mut t = Toggle::new();
    assert!(t.toggle());
    assert!(!t.toggle());
    assert!(t.toggle());
}
