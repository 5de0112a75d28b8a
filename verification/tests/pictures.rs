use detonating_dots::dot::{Dot, State};
use detonating_dots::render::{brightness, clear_pixels, paint_dot};
use detonating_dots::source::Replay;
use detonating_dots::universe::Universe;
use detonating_dots::vec2d::Vec2d;

const HALF: u32 = 1 << 31;

fn burning(x: i64, y: i64, remaining: i64, total: i64) -> Dot {
    Dot {
        pos: Vec2d { x, y },
        dir: Vec2d { x: 0, y: 0 },
        state: State::Detonating { remaining, total },
    }
}

#[test]
fn brightness_is_the_share_of_the_time_burnt() {
    assert_eq!(brightness(State::Idle), 0);
    assert_eq!(brightness(State::Detonating { remaining: 4750, total: 4750 }), 0);
    assert_eq!(brightness(State::Detonating { remaining: 3750, total: 4750 }), 53);
    assert_eq!(brightness(State::Detonating { remaining: 2375, total: 4750 }), 127);
    assert_eq!(brightness(State::Detonating { remaining: 1, total: 4750 }), 254);
    assert_eq!(brightness(State::Detonating { remaining: 0, total: 4750 }), 255);
}

#[test]
fn brightness_stays_between_none_and_all() {
    assert_eq!(brightness(State::Detonating { remaining: -250, total: 4750 }), 255);
    assert_eq!(brightness(State::Detonating { remaining: 9000, total: 4750 }), 0);
    assert_eq!(brightness(State::Detonating { remaining: 5, total: 0 }), 0);
    assert_eq!(brightness(State::Detonating { remaining: 0, total: 0 }), 0);
    assert_eq!(brightness(State::Detonating { remaining: -5, total: 0 }), 255);
    assert_eq!(brightness(State::Detonating { remaining: -1000, total: -4000 }), 191);
    assert_eq!(brightness(State::Detonating { remaining: -5000, total: -4000 }), 0);
    assert_eq!(brightness(State::Detonating { remaining: 10, total: -4000 }), 255);
}

#[test]
fn clear_pixels_zeroes_the_first_and_the_fourth_byte_of_each_square() {
    let mut image: Vec<u8> = (1..=12).collect();
    clear_pixels(&mut image);
    assert_eq!(image, vec![0, 2, 3, 0, 0, 6, 7, 0, 0, 10, 11, 0]);
    let mut empty: Vec<u8> = Vec::new();
    clear_pixels(&mut empty);
    assert!(empty.is_empty());
}

#[test]
fn paint_dot_marks_the_square_of_the_dot() {
    let mut image: Vec<u8> = vec![9; 4 * 3 * 2];
    paint_dot(&mut image, &burning(2_999, 1_000, 2375, 4750), 3);
    let mut expected: Vec<u8> = vec![9; 24];
    expected[20] = 127;
    expected[23] = 255;
    assert_eq!(image, expected);
}

#[test]
fn paint_dot_counts_a_negative_coordinate_as_zero() {
    let mut image: Vec<u8> = vec![0; 24];
    paint_dot(&mut image, &burning(-1, -5_000, 0, 1000), 3);
    let mut expected: Vec<u8> = vec![0; 24];
    expected[0] = 255;
    expected[3] = 255;
    assert_eq!(image, expected);
}

#[test]
fn paint_dot_skips_a_dot_beyond_the_picture() {
    let mut image: Vec<u8> = vec![0; 24];
    paint_dot(&mut image, &burning(0, 2_000, 0, 1000), 3);
    paint_dot(&mut image, &burning(6_000, 0, 0, 1000), 3);
    paint_dot(&mut image, &burning(1_000_000_000_000_000, 1_000_000_000_000_000, 0, 1000), 3);
    assert_eq!(image, vec![0; 24]);
}

#[test]
fn paint_dot_runs_on_into_the_next_row() {
    let mut image: Vec<u8> = vec![0; 24];
    paint_dot(&mut image, &burning(4_500, 0, 500, 1000), 3);
    let mut expected: Vec<u8> = vec![0; 24];
    expected[16] = 127;
    expected[19] = 255;
    assert_eq!(image, expected);
}

#[test]
fn render_image_data_draws_a_resting_dot_dark() {
    let mut source = Replay::new(vec![HALF, HALF]);
    let mut universe = Universe::new(10, 10, 1, &mut source);
    universe.render_image_data();
    let mut expected: Vec<u8> = vec![0; 400];
    expected[223] = 255;
    assert_eq!(*universe.image_data(), expected);
}

#[test]
fn render_image_data_clears_what_was_drawn_before() {
    let mut source = Replay::new(vec![HALF, HALF, 1 << 30]);
    let mut universe = Universe::new(10, 10, 1, &mut source);
    universe.render_image_data();
    universe.add_event(5_000, 5_000, 3_000);
    universe.tick(0, &mut source);
    universe.tick(1000, &mut source);
    assert_eq!(
        universe.dot(0),
        Dot {
            pos: Vec2d { x: 45_000, y: 5_000 },
            dir: Vec2d { x: 32_400, y: 0 },
            state: State::Detonating { remaining: 3750, total: 4750 },
        }
    );
    let mut before: Vec<u8> = vec![0; 400];
    before[223] = 255;
    assert_eq!(*universe.image_data(), before);
    universe.render_image_data();
    let mut expected: Vec<u8> = vec![0; 400];
    expected[380] = 53;
    expected[383] = 255;
    assert_eq!(*universe.image_data(), expected);
    assert_eq!(universe.remaining_dots(), 1);
    assert_eq!(universe.pending_count(), 0);
}

#[test]
fn render_image_data_draws_the_later_dot_over_the_earlier() {
    let mut source = Replay::new(vec![HALF, HALF, 0, 0]);
    let mut universe = Universe::new(10, 10, 3, &mut source);
    universe.add_event(5_000, 5_000, 1_000);
    let mut first = Replay::new(vec![0, u32::MAX]);
    universe.handle_events(1, &mut first);
    universe.tick(100, &mut first);
    assert_eq!(universe.dot(0).state, State::Detonating { remaining: 2900, total: 3000 });
    assert_eq!(universe.dot(1).state, State::Idle);
    assert_eq!(universe.dot(2).state, State::Detonating { remaining: 9899, total: 9999 });
    assert_eq!(universe.dot(0).pos, Vec2d { x: 0, y: 5_000 });
    assert_eq!(universe.dot(2).pos, Vec2d { x: 0, y: 5_000 });
    assert_eq!(brightness(universe.dot(0).state), 8);
    universe.render_image_data();
    let mut expected: Vec<u8> = vec![0; 400];
    expected[3] = 255;
    expected[200] = 2;
    expected[203] = 255;
    assert_eq!(*universe.image_data(), expected);
}
