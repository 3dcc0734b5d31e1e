use walkgrid::coords::direction_from;
use walkgrid::Vec2i;

#[test]
fn relative_to_should_relativize() {
    let zero = Vec2i::new(5, 5);
    let position = Vec2i::new(3, 6);
    let expected = Vec2i::new(-2, 1);
    assert_eq!(position.relative_to(&zero), expected)
}

#[test]
fn relative_to_should_relativize_with_negatives() {
    let zero = Vec2i::new(-100, 86);
    let position = Vec2i::new(0, 0);
    let expected = Vec2i::new(100, -86);
    assert_eq!(position.relative_to(&zero), expected)
}

#[test]
fn undo_relative_to_should_relativize() {
    let zero = Vec2i::new(5, 5);
    let relative_positon = Vec2i::new(-2, 1);
    let expected = Vec2i::new(3, 6);
    assert_eq!(relative_positon.undo_relative(&zero), expected)
}

#[test]
fn undo_relative_to_should_relativize_with_negatives() {
    let zero = Vec2i::new(-100, 86);
    let relative_positon = Vec2i::new(100, -86);
    let expected = Vec2i::new(0, 0);
    assert_eq!(relative_positon.undo_relative(&zero), expected)
}

#[test]
fn abs_inverts_negatives() {
    let position = Vec2i::new(-1000, -1);
    let expected = Vec2i::new(1000, 1);
    assert_eq!(position.abs(), expected)
}

#[test]
fn abs_ignores_positives() {
    let position = Vec2i::new(1000, 1);
    let expected = Vec2i::new(1000, 1);
    assert_eq!(position.abs(), expected)
}

#[test]
fn copy_signs_copies_changed() {
    let position = Vec2i::new(1000, 1);
    let signs = Vec2i::new(-4, -3);
    let expected = Vec2i::new(-1000, -1);
    assert_eq!(position.copy_signs(&signs), expected)
}

#[test]
fn copy_signs_change_x() {
    let position = Vec2i::new(1000, 1);
    let signs = Vec2i::new(-8, 12);
    let expected = Vec2i::new(-1000, 1);
    assert_eq!(position.copy_signs(&signs), expected)
}

#[test]
fn copy_signs_change_y() {
    let position = Vec2i::new(1000, 1);
    let signs = Vec2i::new(34, -54);
    let expected = Vec2i::new(1000, -1);
    assert_eq!(position.copy_signs(&signs), expected)
}

#[test]
fn copy_signs_do_nothing_when_match() {
    let position = Vec2i::new(1000, 1);
    let signs = Vec2i::new(3, 2);
    let expected = Vec2i::new(1000, 1);
    assert_eq!(position.copy_signs(&signs), expected)
}

#[test]
fn copy_signs_is_idempotent_for_fixed_signs() {
    let position = Vec2i::new(-17, 4);
    let signs = Vec2i::new(9, -2);
    let once = position.copy_signs(&signs);
    let twice = once.copy_signs(&signs);
    assert_eq!(once, Vec2i::new(17, -4));
    assert_eq!(twice, once)
}

#[test]
fn relative_then_undo_returns_original() {
    let zero = Vec2i::new(-37, 1200);
    let position = Vec2i::new(64, -640);
    assert_eq!(position.relative_to(&zero).undo_relative(&zero), position)
}

#[test]
fn direction_from_sums_opposing_inputs() {
    assert_eq!(direction_from(false, false, false, false), Vec2i::new(0, 0));
    assert_eq!(direction_from(true, false, false, false), Vec2i::new(-1, 0));
    assert_eq!(direction_from(false, true, true, false), Vec2i::new(1, 1));
    assert_eq!(direction_from(true, true, false, true), Vec2i::new(0, -1))
}

#[test]
fn tiled_top_left_moves_up_by_map_height() {
    let anchor = Vec2i::new(10, 20);
    let top_left = anchor.tiled_top_left(4, 16);
    assert_eq!(top_left, Vec2i::new(10, 20 + 16 * 3))
}
