use detonating_dots::events::{interpolate, ForceEvent, EXPLOSION_RADIUS, MAX_IMPULSE};
use detonating_dots::fixed::LIMIT;
use detonating_dots::vec2d::Vec2d;

fn blast() -> ForceEvent {
    ForceEvent { position: Vec2d { x: 10_000, y: 10_000 }, radius: 5_000 }
}

#[test]
fn impulse_constants() {
    assert_eq!(EXPLOSION_RADIUS, 10_000);
    assert_eq!(MAX_IMPULSE, 50_000);
}

#[test]
fn interpolate_goes_from_min_to_max() {
    assert_eq!(interpolate(0, 50_000, 0), 0);
    assert_eq!(interpolate(0, 50_000, 1000), 50_000);
    assert_eq!(interpolate(0, 50_000, 360), 18_000);
    assert_eq!(interpolate(0, 50_000, 305), 15_250);
    assert_eq!(interpolate(10_000, 20_000, 500), 15_000);
    assert_eq!(interpolate(20_000, 10_000, 250), 17_500);
    assert_eq!(interpolate(0, 255, 999), 254);
}

#[test]
fn interpolate_clamps_at_the_limit() {
    assert_eq!(interpolate(0, i64::MAX, i64::MAX), LIMIT);
    assert_eq!(interpolate(i64::MAX, i64::MIN, i64::MAX), LIMIT);
    assert_eq!(interpolate(i64::MIN, 0, 0), -LIMIT);
}

#[test]
fn bounds_are_the_centre_minus_and_plus_the_radius() {
    let (top_left, bottom_right) = blast().bounds();
    assert_eq!(top_left, Vec2d { x: 5_000, y: 5_000 });
    assert_eq!(bottom_right, Vec2d { x: 15_000, y: 15_000 });
}

#[test]
fn bounds_of_a_negative_radius_are_swapped() {
    let event = ForceEvent { position: Vec2d { x: 10_000, y: 10_000 }, radius: -5_000 };
    let (top_left, bottom_right) = event.bounds();
    assert_eq!(top_left, Vec2d { x: 15_000, y: 15_000 });
    assert_eq!(bottom_right, Vec2d { x: 5_000, y: 5_000 });
}

#[test]
fn impulse_on_the_centre_is_the_full_impulse_along_the_first_axis() {
    assert_eq!(
        blast().impulse_on(Vec2d { x: 10_000, y: 10_000 }),
        Some(Vec2d { x: 50_000, y: 0 })
    );
}

#[test]
fn impulse_on_falls_off_with_the_square_of_the_remaining_share() {
    assert_eq!(
        blast().impulse_on(Vec2d { x: 12_000, y: 10_000 }),
        Some(Vec2d { x: 18_000, y: 0 })
    );
    assert_eq!(blast().impulse_on(Vec2d { x: 7_000, y: 10_000 }), Some(Vec2d { x: -8_000, y: 0 }));
    assert_eq!(
        blast().impulse_on(Vec2d { x: 11_000, y: 12_000 }),
        Some(Vec2d { x: 6_816, y: 13_633 })
    );
    assert_eq!(blast().impulse_on(Vec2d { x: 10_000, y: 5_001 }), Some(Vec2d { x: 0, y: 0 }));
}

#[test]
fn impulse_on_reaches_no_dot_at_or_beyond_the_radius() {
    assert_eq!(blast().impulse_on(Vec2d { x: 13_000, y: 14_000 }), None);
    assert_eq!(blast().impulse_on(Vec2d { x: 15_000, y: 10_000 }), None);
    assert_eq!(blast().impulse_on(Vec2d { x: 10_000, y: 4_999 }), None);
    assert_eq!(blast().impulse_on(Vec2d { x: 50_000, y: 50_000 }), None);
    assert_eq!(blast().impulse_on(Vec2d { x: 14_000, y: 14_000 }), None);
    assert_eq!(blast().impulse_on(Vec2d { x: -LIMIT, y: LIMIT }), None);
}

#[test]
fn impulse_on_reaches_a_dot_inside_the_circle_near_a_corner_of_the_square() {
    assert_eq!(
        blast().impulse_on(Vec2d { x: 13_500, y: 13_500 }),
        Some(Vec2d { x: 0, y: 0 })
    );
    assert_eq!(
        blast().impulse_on(Vec2d { x: 13_000, y: 13_000 }),
        Some(Vec2d { x: 777, y: 777 })
    );
}

#[test]
fn an_event_without_a_positive_radius_reaches_nothing() {
    let point = Vec2d { x: 10_000, y: 10_000 };
    let flat = ForceEvent { position: point, radius: 0 };
    let negative = ForceEvent { position: point, radius: -5_000 };
    assert_eq!(flat.impulse_on(point), None);
    assert_eq!(negative.impulse_on(point), None);
    assert_eq!(negative.impulse_on(Vec2d { x: 11_000, y: 10_000 }), None);
}

#[test]
fn the_widest_event_still_misses_what_lies_too_far() {
    let wide = ForceEvent { position: Vec2d { x: -LIMIT, y: 0 }, radius: LIMIT };
    assert_eq!(wide.impulse_on(Vec2d { x: LIMIT, y: 0 }), None);
    assert_eq!(wide.impulse_on(Vec2d { x: 0, y: 0 }), None);
    assert_eq!(wide.impulse_on(Vec2d { x: -1, y: 0 }), Some(Vec2d { x: 0, y: 0 }));
    assert_eq!(wide.impulse_on(Vec2d { x: -LIMIT, y: 0 }), Some(Vec2d { x: 50_000, y: 0 }));
}
