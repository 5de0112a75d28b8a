use detonating_dots::dot::{Dot, State};
use detonating_dots::fixed::LIMIT;
use detonating_dots::source::{Replay, UnitSource};
use detonating_dots::universe::{place, Universe, GRID_SIZE, MAX_EVENTS_PER_TICK};
use detonating_dots::vec2d::Vec2d;

const HALF: u32 = 1 << 31;
const TENTH: u32 = 429_496_730;

struct Counting {
    drawn: usize,
    state: u64,
}

impl UnitSource for Counting {
    fn next_unit(&mut self) -> u32 {
        self.drawn += 1;
        self.state = self
            .state
            .wrapping_mul(6_364_136_223_846_793_005)
            .wrapping_add(1_442_695_040_888_963_407);
        (self.state >> 32) as u32
    }
}

fn resting(x: i64, y: i64) -> Dot {
    Dot { pos: Vec2d { x, y }, dir: Vec2d { x: 0, y: 0 }, state: State::Idle }
}

#[test]
fn field_constants() {
    assert_eq!(GRID_SIZE, 10);
    assert_eq!(MAX_EVENTS_PER_TICK, 50);
}

#[test]
fn place_picks_a_fraction_of_the_extent() {
    assert_eq!(place(0, 100), 0);
    assert_eq!(place(HALF, 100), 50_000);
    assert_eq!(place(TENTH, 100), 10_000);
    assert_eq!(place(u32::MAX, 100), 99_999);
    assert_eq!(place(3 << 30, 200), 150_000);
    assert_eq!(place(u32::MAX, u32::MAX), 4_294_967_294_000);
    assert_eq!(place(u32::MAX, 0), 0);
}

#[test]
fn new_places_resting_dots_inside_the_field() {
    let mut source = Counting { drawn: 0, state: 2024 };
    let universe = Universe::new(120, 80, 500, &mut source);
    assert_eq!(source.drawn, 1000);
    assert_eq!(universe.width(), 120);
    assert_eq!(universe.height(), 80);
    assert_eq!(universe.remaining_dots(), 500);
    assert_eq!(universe.pending_count(), 0);
    assert_eq!(universe.image_data().len(), 120 * 80 * 4);
    assert!(universe.image_data().iter().all(|byte| *byte == 0));
    for i in 0..500 {
        let dot = universe.dot(i);
        assert_eq!(dot.state, State::Idle);
        assert_eq!(dot.dir, Vec2d { x: 0, y: 0 });
        assert!(0 <= dot.pos.x && dot.pos.x < 120_000);
        assert!(0 <= dot.pos.y && dot.pos.y < 80_000);
    }
}

#[test]
fn new_takes_two_draws_for_each_dot_the_first_axis_first() {
    let mut source = Replay::new(vec![0, HALF, u32::MAX, TENTH]);
    let universe = Universe::new(100, 200, 3, &mut source);
    assert_eq!(universe.dot(0), resting(0, 100_000));
    assert_eq!(universe.dot(1), resting(99_999, 20_000));
    assert_eq!(universe.dot(2), resting(0, 100_000));
}

#[test]
fn new_with_no_dots_is_an_empty_field() {
    let mut source = Counting { drawn: 0, state: 2024 };
    let mut universe = Universe::new(10, 10, 0, &mut source);
    assert_eq!(source.drawn, 0);
    assert_eq!(universe.remaining_dots(), 0);
    universe.add_event(5_000, 5_000, 10_000);
    universe.tick(100, &mut source);
    assert_eq!(universe.remaining_dots(), 0);
    assert_eq!(universe.pending_count(), 0);
    assert_eq!(source.drawn, 0);
}

#[test]
fn an_impulse_on_top_of_a_resting_dot_lights_and_pushes_it() {
    let mut source = Replay::new(vec![HALF, HALF, 1 << 30]);
    let mut universe = Universe::new(100, 100, 1, &mut source);
    assert_eq!(universe.dot(0), resting(50_000, 50_000));
    universe.add_event(50_000, 50_000, 10_000);
    assert_eq!(universe.pending_count(), 1);
    universe.tick(100, &mut source);
    assert_eq!(universe.pending_count(), 0);
    assert_eq!(universe.remaining_dots(), 1);
    let dot = universe.dot(0);
    assert_eq!(dot.pos, Vec2d { x: 50_000, y: 50_000 });
    assert_eq!(dot.dir, Vec2d { x: 50_000, y: 0 });
    assert_eq!(dot.state, State::Detonating { remaining: 4750, total: 4750 });
}

#[test]
fn the_time_of_a_lit_dot_lies_between_the_shortest_and_the_longest() {
    let draws: [u32; 5] = [0, 1, HALF, u32::MAX - 1, u32::MAX];
    for draw in draws {
        let mut source = Replay::new(vec![HALF, HALF, draw]);
        let mut universe = Universe::new(100, 100, 1, &mut source);
        universe.add_event(50_000, 50_000, 10_000);
        universe.tick(100, &mut source);
        match universe.dot(0).state {
            State::Detonating { remaining, total } => {
                assert_eq!(remaining, total);
                assert!(3_000 <= total && total <= 10_000);
            },
            State::Idle => panic!("the dot was not lit"),
        }
        let dir = universe.dot(0).dir;
        assert!(dir.x != 0 || dir.y != 0);
    }
}

#[test]
fn an_impulse_lights_only_the_dot_within_its_radius() {
    let mut source = Replay::new(vec![TENTH, TENTH, HALF, HALF, u32::MAX]);
    let mut universe = Universe::new(100, 100, 2, &mut source);
    assert_eq!(universe.dot(0), resting(10_000, 10_000));
    assert_eq!(universe.dot(1), resting(50_000, 50_000));
    universe.add_event(10_000, 10_000, 5_000);
    universe.tick(100, &mut source);
    assert_eq!(
        universe.dot(0),
        Dot {
            pos: Vec2d { x: 10_000, y: 10_000 },
            dir: Vec2d { x: 50_000, y: 0 },
            state: State::Detonating { remaining: 9999, total: 9999 },
        }
    );
    assert_eq!(universe.dot(1), resting(50_000, 50_000));
    assert_eq!(universe.pending_count(), 0);
}

#[test]
fn a_lit_dot_leaves_the_field_once_its_time_has_passed_and_not_before() {
    let mut source = Replay::new(vec![HALF, HALF, 1 << 30]);
    let mut universe = Universe::new(100, 100, 1, &mut source);
    universe.add_event(50_000, 50_000, 10_000);
    universe.tick(100, &mut source);
    let total: i64 = 4750;
    let expected: [(i64, i64, i64); 5] = [
        (0, 32_400, 3750),
        (32_400, 20_960, 2750),
        (53_360, 13_524, 1750),
        (66_884, 8_690, 750),
        (75_574, 5_548, -250),
    ];
    let mut elapsed: i64 = 0;
    for (x, speed, remaining) in expected {
        assert!(elapsed < total);
        universe.tick(1000, &mut source);
        elapsed += 1000;
        assert_eq!(universe.remaining_dots(), 1);
        assert_eq!(
            universe.dot(0),
            Dot {
                pos: Vec2d { x, y: 50_000 },
                dir: Vec2d { x: speed, y: 0 },
                state: State::Detonating { remaining, total },
            }
        );
    }
    assert!(elapsed >= total);
    universe.tick(1000, &mut source);
    assert_eq!(universe.remaining_dots(), 0);
    assert_eq!(universe.pending_count(), 0);
}

#[test]
fn a_dying_dot_sets_off_its_neighbour() {
    let mut source = Replay::new(vec![HALF, HALF, 2_233_382_994, HALF, 0, HALF]);
    let mut universe = Universe::new(100, 100, 2, &mut source);
    assert_eq!(universe.dot(0), resting(50_000, 50_000));
    assert_eq!(universe.dot(1), resting(52_000, 50_000));
    universe.add_event(45_000, 50_000, 6_000);
    universe.tick(0, &mut source);
    assert_eq!(
        universe.dot(0),
        Dot {
            pos: Vec2d { x: 50_000, y: 50_000 },
            dir: Vec2d { x: 1350, y: 0 },
            state: State::Detonating { remaining: 3000, total: 3000 },
        }
    );
    assert_eq!(universe.dot(1), resting(52_000, 50_000));
    for _ in 0..6 {
        universe.tick(500, &mut source);
        assert_eq!(universe.remaining_dots(), 2);
        assert_eq!(universe.dot(1), resting(52_000, 50_000));
    }
    assert_eq!(
        universe.dot(0),
        Dot {
            pos: Vec2d { x: 52_337, y: 50_000 },
            dir: Vec2d { x: 228, y: 0 },
            state: State::Detonating { remaining: 0, total: 3000 },
        }
    );
    universe.tick(500, &mut source);
    assert_eq!(universe.remaining_dots(), 1);
    assert_eq!(universe.pending_count(), 0);
    assert_eq!(
        universe.dot(0),
        Dot {
            pos: Vec2d { x: 52_000, y: 50_000 },
            dir: Vec2d { x: -46_650, y: 0 },
            state: State::Detonating { remaining: 6500, total: 6500 },
        }
    );
}

#[test]
fn pending_impulses_are_taken_last_in_first_out() {
    let mut source = Replay::new(vec![HALF, HALF, 0]);
    let mut universe = Universe::new(100, 100, 1, &mut source);
    universe.add_event(50_000, 50_000, 10_000);
    universe.add_event(48_000, 50_000, 10_000);
    universe.handle_events(1, &mut source);
    assert_eq!(universe.pending_count(), 1);
    assert_eq!(
        universe.dot(0),
        Dot {
            pos: Vec2d { x: 50_000, y: 50_000 },
            dir: Vec2d { x: 32_000, y: 0 },
            state: State::Detonating { remaining: 3000, total: 3000 },
        }
    );
    universe.handle_events(1, &mut source);
    assert_eq!(universe.pending_count(), 0);
    assert_eq!(
        universe.dot(0),
        Dot {
            pos: Vec2d { x: 50_000, y: 50_000 },
            dir: Vec2d { x: 82_000, y: 0 },
            state: State::Detonating { remaining: 3000, total: 3000 },
        }
    );
}

#[test]
fn a_second_impulse_does_not_light_a_burning_dot_again() {
    let mut source = Counting { drawn: 0, state: 2024 };
    let mut universe = Universe::new(100, 100, 1, &mut Replay::new(vec![HALF, HALF]));
    universe.add_event(50_000, 50_000, 10_000);
    universe.handle_events(5, &mut source);
    assert_eq!(source.drawn, 1);
    let lit = universe.dot(0).state;
    universe.add_event(50_000, 50_000, 10_000);
    universe.add_event(50_000, 51_000, 10_000);
    universe.handle_events(5, &mut source);
    assert_eq!(source.drawn, 1);
    assert_eq!(universe.dot(0).state, lit);
    assert_eq!(universe.dot(0).dir, Vec2d { x: 50_000 + 50_000, y: -40_500 });
}

#[test]
fn handle_events_works_off_no_more_than_it_may() {
    let mut source = Counting { drawn: 0, state: 2024 };
    let mut universe = Universe::new(100, 100, 20, &mut source);
    for n in 0..7 {
        universe.add_event(10_000 + n, 10_000, 2_000);
    }
    universe.handle_events(3, &mut source);
    assert_eq!(universe.pending_count(), 4);
    universe.handle_events(0, &mut source);
    assert_eq!(universe.pending_count(), 4);
    universe.handle_events(10, &mut source);
    assert_eq!(universe.pending_count(), 0);
    universe.handle_events(10, &mut source);
    assert_eq!(universe.pending_count(), 0);
}

#[test]
fn a_tick_works_off_at_most_fifty_impulses() {
    let mut source = Counting { drawn: 0, state: 2024 };
    let mut universe = Universe::new(100, 100, 10, &mut source);
    for n in 0..120 {
        universe.add_event(n * 100, 50_000, 500);
    }
    universe.tick(16, &mut source);
    assert_eq!(universe.pending_count(), 70);
    universe.tick(16, &mut source);
    assert_eq!(universe.pending_count(), 20);
    universe.tick(16, &mut source);
    assert_eq!(universe.pending_count(), 0);
}

#[test]
fn impulses_from_dying_dots_count_towards_the_fifty() {
    let mut source = Replay::new(vec![HALF]);
    let mut universe = Universe::new(100, 100, 60, &mut source);
    universe.add_event(50_000, 50_000, 1_000);
    let mut lit = Replay::new(vec![0]);
    universe.tick(0, &mut lit);
    assert_eq!(universe.remaining_dots(), 60);
    assert_eq!(universe.pending_count(), 0);
    universe.tick(3_000, &mut lit);
    assert_eq!(universe.remaining_dots(), 60);
    for _ in 0..10 {
        universe.add_event(0, 0, 1);
    }
    universe.tick(0, &mut lit);
    assert_eq!(universe.remaining_dots(), 0);
    assert_eq!(universe.pending_count(), 20);
    universe.tick(0, &mut lit);
    assert_eq!(universe.pending_count(), 0);
}

#[test]
fn add_event_clamps_what_lies_beyond_the_limit() {
    let mut source = Replay::new(vec![HALF, HALF, 0]);
    let mut universe = Universe::new(100, 100, 1, &mut source);
    universe.add_event(i64::MIN, i64::MAX, i64::MAX);
    assert_eq!(universe.pending_count(), 1);
    universe.handle_events(1, &mut source);
    assert_eq!(universe.pending_count(), 0);
    assert_eq!(universe.dot(0), resting(50_000, 50_000));
    universe.add_event(-LIMIT + 50_000, 50_000, i64::MAX);
    universe.handle_events(1, &mut source);
    assert_eq!(universe.dot(0).dir, Vec2d { x: 0, y: 0 });
    assert_eq!(universe.dot(0).state, State::Idle);
    universe.add_event(-LIMIT + 50_001, 50_000, i64::MAX);
    universe.handle_events(1, &mut source);
    assert_eq!(universe.dot(0).state, State::Detonating { remaining: 3000, total: 3000 });
}

#[test]
fn an_impulse_from_outside_the_field_reaches_across_the_edge() {
    let mut source = Replay::new(vec![0, HALF, 0]);
    let mut universe = Universe::new(100, 100, 1, &mut source);
    assert_eq!(universe.dot(0), resting(0, 50_000));
    universe.add_event(-4_000, 50_000, 10_000);
    universe.tick(0, &mut source);
    assert_eq!(
        universe.dot(0),
        Dot {
            pos: Vec2d { x: 0, y: 50_000 },
            dir: Vec2d { x: 18_000, y: 0 },
            state: State::Detonating { remaining: 3000, total: 3000 },
        }
    );
}

#[test]
fn the_grid_finds_the_same_dots_as_a_search_of_all() {
    let mut source = Counting { drawn: 0, state: 2024 };
    let mut universe = Universe::new(200, 150, 400, &mut source);
    let before: Vec<Dot> = (0..400).map(|i| universe.dot(i)).collect();
    let centre = Vec2d { x: 97_300, y: 61_200 };
    let radius: i64 = 33_000;
    universe.add_event(centre.x, centre.y, radius);
    universe.handle_events(1, &mut source);
    let mut hit = 0;
    for (i, dot) in before.iter().enumerate() {
        let away = (dot.pos - centre).length();
        let after = universe.dot(i);
        assert_eq!(after.pos, dot.pos);
        if away < radius {
            hit += 1;
            assert!(after.state != State::Idle);
        } else {
            assert_eq!(after, *dot);
        }
    }
    assert!(hit > 0 && hit < 400);
}
