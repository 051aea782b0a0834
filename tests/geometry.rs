use planar_ik::geometry::{floor_div, is_in_range, isqrt, jacobian_column_of, turn_point, Turn, Vec2, COORD_LIMIT, SCALE};

#[test]
fn floor_div_rounds_toward_negative_infinity() {
    assert_eq!(floor_div(7, 2), 3);
    assert_eq!(floor_div(-7, 2), -4);
    assert_eq!(floor_div(-6, 2), -3);
    assert_eq!(floor_div(0, 5), 0);
    assert_eq!(floor_div(-1, 1_000_000), -1);
}

#[test]
fn isqrt_finds_the_integer_root() {
    assert_eq!(isqrt(0), 0);
    assert_eq!(isqrt(1), 1);
    assert_eq!(isqrt(15), 3);
    assert_eq!(isqrt(16), 4);
    assert_eq!(isqrt(17), 4);
    assert_eq!(isqrt(8_000_000_000_000_000_000_000_000), 2_828_427_124_746);
    let big: u128 = 2_828_427_124_746;
    assert!(big * big <= 8_000_000_000_000_000_000_000_000);
    assert!((big + 1) * (big + 1) > 8_000_000_000_000_000_000_000_000);
}

#[test]
fn turn_validity() {
    assert!(!Turn { cos: SCALE, sin: -SCALE }.is_valid());
    assert!(Turn { cos: SCALE, sin: 0 }.is_valid());
    assert!(Turn { cos: 0, sin: -SCALE }.is_valid());
    assert!(!Turn { cos: SCALE + 1, sin: 0 }.is_valid());
    assert!(!Turn { cos: 0, sin: -SCALE - 1 }.is_valid());
    assert!(!Turn { cos: 0, sin: 0 }.is_valid());
    assert!(!Turn { cos: 500_000, sin: -500_000 }.is_valid());
    assert!(Turn { cos: 707_107, sin: 707_107 }.is_valid());
    assert!(Turn { cos: 600_000, sin: 800_001 }.is_valid());
    assert!(!Turn { cos: 600_000, sin: 800_003 }.is_valid());
}

#[test]
fn turn_point_turns_about_the_pivot() {
    let pivot = Vec2 { x: SCALE, y: SCALE };
    let quarter = Turn { cos: 0, sin: SCALE };
    assert_eq!(turn_point(pivot, quarter, Vec2 { x: 3 * SCALE, y: SCALE }), Some(Vec2 { x: SCALE, y: 3 * SCALE }));
    assert_eq!(turn_point(pivot, quarter, pivot), Some(pivot));
}

#[test]
fn turn_point_reports_leaving_the_range() {
    let pivot = Vec2 { x: COORD_LIMIT, y: 0 };
    let half = Turn { cos: -SCALE, sin: 0 };
    assert_eq!(turn_point(pivot, half, Vec2 { x: 0, y: 0 }), None);
    assert_eq!(turn_point(pivot, half, Vec2 { x: COORD_LIMIT, y: 5 }), Some(Vec2 { x: COORD_LIMIT, y: -5 }));
}

#[test]
fn jacobian_column_of_a_diagonal_offset() {
    let c = jacobian_column_of(Vec2 { x: 0, y: 0 }, Vec2 { x: SCALE, y: SCALE });
    assert_eq!(c, Vec2 { x: -707_107, y: 707_106 });
}

#[test]
fn jacobian_column_of_a_tiny_offset_has_unit_length() {
    let c = jacobian_column_of(Vec2 { x: 0, y: 0 }, Vec2 { x: 1, y: 1 });
    assert_eq!(c, Vec2 { x: -707_108, y: 707_107 });
    let far = jacobian_column_of(Vec2 { x: 5, y: -2 }, Vec2 { x: 5 + 3 * SCALE, y: -2 + 4 * SCALE });
    assert_eq!(far, Vec2 { x: -800_000, y: 600_000 });
    let near = jacobian_column_of(Vec2 { x: 5, y: -2 }, Vec2 { x: 8, y: 2 });
    assert_eq!(near, Vec2 { x: -800_000, y: 600_000 });
}

#[test]
fn in_range_check() {
    assert!(is_in_range(&Vec2 { x: COORD_LIMIT, y: -COORD_LIMIT }));
    assert!(!is_in_range(&Vec2 { x: COORD_LIMIT + 1, y: 0 }));
    assert!(!is_in_range(&Vec2 { x: 0, y: -COORD_LIMIT - 1 }));
}
