use tanks_arena::geometry::{
    circle_circle_collision, circle_rect_collision, Direction, Vector2, UNIT,
};

#[test]
fn normalize_scales_to_unit_length() {
    let v = Vector2::new(3, 4).normalize();
    assert_eq!(v, Vector2::new(600, 800));
}

#[test]
fn normalize_keeps_zero_vector() {
    assert_eq!(Vector2::zero().normalize(), Vector2::zero());
}

#[test]
fn normalize_negative_components() {
    let v = Vector2::new(-5, 0).normalize();
    assert_eq!(v, Vector2::new(-UNIT, 0));
}

#[test]
fn magnitude_rounds_down() {
    assert_eq!(Vector2::new(3000, 4000).magnitude(), 5000);
    assert_eq!(Vector2::new(1, 1).magnitude(), 1);
    assert_eq!(Vector2::new(i64::MIN, i64::MIN).magnitude(), 13043817825332782212);
}

#[test]
fn plus_and_scale() {
    let a = Vector2::new(10, -20).plus(&Vector2::new(5, 5));
    assert_eq!(a, Vector2::new(15, -15));
    assert_eq!(Vector2::new(1000, -1000).scale(120), Vector2::new(120, -120));
    assert_eq!(Vector2::new(-999, 999).scale(1), Vector2::new(0, 0));
}

#[test]
fn directions() {
    assert_eq!(Vector2::from_direction(&Direction::North), Vector2::new(0, -UNIT));
    assert_eq!(Vector2::from_direction(&Direction::SouthWest), Vector2::new(-UNIT, UNIT));
}

#[test]
fn circle_collision_is_symmetric() {
    let a = Vector2::new(0, 0);
    let b = Vector2::new(300, 400);
    assert!(circle_circle_collision(&a, 300, &b, 201).is_err());
    assert!(circle_circle_collision(&b, 201, &a, 300).is_err());
    assert!(circle_circle_collision(&a, 300, &b, 200).is_ok());
    assert!(circle_circle_collision(&b, 200, &a, 300).is_ok());
    assert_eq!(circle_circle_collision(&a, 300, &b, 201), Err(Vector2::new(300, 400)));
}

#[test]
fn circle_rect_collision_reports_offset() {
    let rect = Vector2::new(5000, 0);
    let hit = circle_rect_collision(&Vector2::new(4960, 500), 120, &rect, UNIT, UNIT);
    assert_eq!(hit, Err(Vector2::new(40, 0)));
    let miss = circle_rect_collision(&Vector2::new(4880, 500), 120, &rect, UNIT, UNIT);
    assert_eq!(miss, Ok(()));
    let corner = circle_rect_collision(&Vector2::new(6050, 1050), 120, &rect, UNIT, UNIT);
    assert_eq!(corner, Err(Vector2::new(-50, -50)));
}
