use walkgrid::Health;
use walkgrid::SpriteAnimation;

#[test]
fn health_damage_subtracts() {
    let health = Health::new(100);
    let hurt = health.damage(30);
    let again = hurt.damage(30);
    assert_eq!(hurt.current(), 70);
    assert_eq!(hurt.max_points(), 100);
    assert_eq!(again.current(), 40);
    assert_eq!(again.max_points(), 100)
}

#[test]
fn health_damage_saturates_at_zero() {
    let health = Health::new(10);
    assert_eq!(health.damage(11).current(), 0);
    assert_eq!(health.damage(10).current(), 0);
    assert_eq!(health.damage(11).max_points(), 10)
}

#[test]
fn health_default_is_full_hundred() {
    assert_eq!(Health::default(), Health::new(100))
}

#[test]
fn animation_next_frame_advances_and_wraps() {
    let run = SpriteAnimation { first: 8, last: 13 };
    assert_eq!(run.next_frame(8), 9);
    assert_eq!(run.next_frame(12), 13);
    assert_eq!(run.next_frame(13), 8)
}

#[test]
fn animations_equal_on_same_frame_range() {
    let a = SpriteAnimation { first: 0, last: 5 };
    let b = SpriteAnimation { first: 0, last: 5 };
    let c = SpriteAnimation { first: 0, last: 6 };
    assert_eq!(a, b);
    assert_ne!(a, c)
}
