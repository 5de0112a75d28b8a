//! The field of dots: its construction, its step, and the draining of
//! pending impulses.

use vstd::prelude::*;
use crate::dot::{Dot, State};
use crate::events::{ForceEvent, EXPLOSION_RADIUS};
use crate::fixed::{clamp, lemma_quot_bounds, quot, saturate, SCALE};
use crate::grid::SpatialGrid;
use crate::source::UnitSource;
use crate::render::{clear_pixels, cleared, lemma_painted_len, paint_dot, painted};
use crate::vec2d::Vec2d;

verus! {

/// The edge length of a grid cell, in whole units.
pub const GRID_SIZE: u32 = 10;

/// The number of impulses that one step of the field works off at most.
pub const MAX_EVENTS_PER_TICK: usize = 50;

/// The coordinate that the draw `draw` picks on an axis of `extent` whole
/// units: that fraction of the extent, rounded down.
pub open spec fn placed(draw: int, extent: int) -> int {
    quot(draw * (extent * SCALE), 0x1_0000_0000)
}

/// A picked coordinate lies on the axis.
pub proof fn lemma_placed(draw: int, extent: int)
    requires
        0 <= draw < 0x1_0000_0000,
        0 < extent,
    ensures
        0 <= placed(draw, extent) < extent * SCALE,
{
    let length = extent * SCALE;
    lemma_quot_bounds(draw * length, 0x1_0000_0000);
    assert(0 <= draw * length < length * 0x1_0000_0000) by (nonlinear_arith)
        requires
            0 <= draw < 0x1_0000_0000,
            length > 0,
    ;
    let q = placed(draw, extent);
    assert(q < length) by (nonlinear_arith)
        requires
            q * 0x1_0000_0000 <= draw * length,
            draw * length < length * 0x1_0000_0000,
    ;
}

/// Picks a coordinate on an axis of `extent` whole units.
pub fn place(draw: u32, extent: u32) -> (r: i64)
    ensures
        r == placed(draw as int, extent as int),
{
    assert(extent * SCALE == extent * 1000) by (nonlinear_arith)
        requires
            SCALE == 1000,
    ;
    let length: u64 = extent as u64 * (SCALE as u64);
    assert(0 <= draw * length <= 0xffff_ffff * 0xffff_ffff * 1000) by (nonlinear_arith)
        requires
            0 <= draw <= 0xffff_ffff,
            0 <= length <= 0xffff_ffff * 1000,
    ;
    let product: u128 = draw as u128 * length as u128;
    proof {
        lemma_quot_bounds(product as int, 0x1_0000_0000);
        assert(quot(product as int, 0x1_0000_0000) <= 0xffff_ffff * 1000) by (nonlinear_arith)
            requires
                quot(product as int, 0x1_0000_0000) * 0x1_0000_0000 <= product,
                product <= 0xffff_ffff * 0xffff_ffff * 1000,
        ;
    }
    (product / 0x1_0000_0000) as i64
}

/// The velocity of a dot at `point` after the topmost `count` events of
/// `stack` have pushed it, the topmost first; `dir` is its velocity before.
pub open spec fn drained_velocity(
    stack: Seq<ForceEvent>,
    count: nat,
    point: Vec2d,
    dir: Vec2d,
) -> Vec2d
    recommends
        count <= stack.len(),
    decreases count,
{
    if count == 0 {
        dir
    } else {
        stack[stack.len() - count].velocity_after(
            point,
            drained_velocity(stack, (count - 1) as nat, point, dir),
        )
    }
}

/// Whether one of the topmost `count` events of `stack` reaches `point`.
pub open spec fn reached_by(stack: Seq<ForceEvent>, count: nat, point: Vec2d) -> bool {
    exists|k: int| stack.len() - count <= k < stack.len() && (#[trigger] stack[k]).reaches(point)
}

/// Whether a resting dot may have been lit into `state`: the state is what
/// some draw gives.
pub open spec fn freshly_lit(state: State) -> bool {
    exists|draw: int| 0 <= draw < 0x1_0000_0000 && state == #[trigger] State::Idle.ignited(draw)
}

/// What the topmost `count` events of `stack` make of the dot `before`.
///
/// The dot stays where it is. Every event that reaches it adds its push to
/// the velocity, in the order in which the events leave the stack. A burning
/// dot burns on unchanged; a resting dot is lit by the first event that
/// reaches it and rests on where none does.
pub open spec fn outcome(before: Dot, stack: Seq<ForceEvent>, count: nat, after: Dot) -> bool {
    &&& after.pos == before.pos
    &&& after.dir == drained_velocity(stack, count, before.pos, before.dir)
    &&& match before.state {
        State::Detonating { remaining, total } => after.state == before.state,
        State::Idle => if reached_by(stack, count, before.pos) {
            freshly_lit(after.state)
        } else {
            after.state == State::Idle
        },
    }
}

/// What one event makes of the dot `before`.
pub open spec fn struck(before: Dot, event: ForceEvent, after: Dot) -> bool {
    &&& after.pos == before.pos
    &&& after.dir == event.velocity_after(before.pos, before.dir)
    &&& match before.state {
        State::Detonating { remaining, total } => after.state == before.state,
        State::Idle => if event.reaches(before.pos) {
            freshly_lit(after.state)
        } else {
            after.state == State::Idle
        },
    }
}

/// What the topmost `count` events made of a dot, and what the next event
/// down the stack makes of that, is what the topmost `count + 1` events make
/// of the dot.
pub proof fn lemma_outcome_next(
    before: Dot,
    stack: Seq<ForceEvent>,
    count: nat,
    between: Dot,
    after: Dot,
)
    requires
        count < stack.len(),
        outcome(before, stack, count, between),
        struck(between, stack[stack.len() - count - 1], after),
    ensures
        outcome(before, stack, count + 1, after),
{
    let event = stack[stack.len() - count - 1];
    let point = before.pos;
    if reached_by(stack, count, point) {
        let k = choose|k: int|
            stack.len() - count <= k < stack.len() && (#[trigger] stack[k]).reaches(point);
        assert(stack.len() - (count + 1) <= k < stack.len() && stack[k].reaches(point));
    }
    if event.reaches(point) {
        assert(stack[stack.len() - count - 1].reaches(point));
    }
    if reached_by(stack, count + 1, point) {
        let k = choose|k: int|
            stack.len() - (count + 1) <= k < stack.len() && (#[trigger] stack[k]).reaches(point);
        if k != stack.len() - count - 1 {
            assert(stack.len() - count <= k < stack.len() && stack[k].reaches(point));
        }
    }
    match before.state {
        State::Idle => {
            if reached_by(stack, count, point) {
                let draw = choose|draw: int|
                    0 <= draw < 0x1_0000_0000 && between.state == #[trigger] State::Idle.ignited(
                        draw,
                    );
                assert(between.state is Detonating);
            }
        },
        State::Detonating { remaining, total } => {},
    }
}

/// Taking one more entry of a list adds that entry to what the list holds
/// so far, and in a list that names nothing twice the entry is new.
proof fn lemma_take_one_more(list: Seq<usize>, c: int, i: usize)
    requires
        0 <= c < list.len(),
    ensures
        list.take(c + 1).contains(i) <==> list.take(c).contains(i) || list[c] == i,
        list.no_duplicates() ==> !list.take(c).contains(list[c]),
{
    let more = list.take(c + 1);
    let fewer = list.take(c);
    if more.contains(i) {
        let j = choose|j: int| 0 <= j < more.len() && more[j] == i;
        if j < c {
            assert(fewer[j] == i);
        }
    }
    if fewer.contains(i) {
        let j = choose|j: int| 0 <= j < fewer.len() && fewer[j] == i;
        assert(more[j] == i);
    }
    if list[c] == i {
        assert(more[c] == i);
    }
    if list.no_duplicates() && fewer.contains(list[c]) {
        let j = choose|j: int| 0 <= j < fewer.len() && fewer[j] == list[c];
        assert(list[j] == list[c]);
    }
}

/// The events that the dead among `dots` leave behind, in the order of the
/// dots: each at the place of its dot, with the radius of an explosion.
pub open spec fn deaths(dots: Seq<Dot>) -> Seq<ForceEvent>
    decreases dots.len(),
{
    if dots.len() == 0 {
        Seq::empty()
    } else if dots.last().state.alive() {
        deaths(dots.drop_last())
    } else {
        deaths(dots.drop_last()).push(
            ForceEvent { position: dots.last().pos, radius: EXPLOSION_RADIUS },
        )
    }
}

/// The living among `dots`, in their order, each after one step.
pub open spec fn survivors(dots: Seq<Dot>, time_delta: int, width: int, height: int) -> Seq<Dot>
    decreases dots.len(),
{
    if dots.len() == 0 {
        Seq::empty()
    } else if dots.last().state.alive() {
        survivors(dots.drop_last(), time_delta, width, height).push(
            dots.last().stepped(time_delta, width, height),
        )
    } else {
        survivors(dots.drop_last(), time_delta, width, height)
    }
}

/// Whether `dot` is a dot as a new field of `width` by `height` whole units
/// holds it: at rest, unlit, and at a place that two draws picked.
pub open spec fn spawned(dot: Dot, width: int, height: int) -> bool {
    &&& dot.state == State::Idle
    &&& dot.dir == Vec2d { x: 0, y: 0 }
    &&& exists|draw_x: int, draw_y: int|
        0 <= draw_x < 0x1_0000_0000 && 0 <= draw_y < 0x1_0000_0000 && dot.pos.x
            == #[trigger] placed(draw_x, width) && dot.pos.y == #[trigger] placed(draw_y, height)
}

/// The field: its extent in whole units, its dots, the impulses still to be
/// worked off (a stack: the last one pushed is the first one taken), and the
/// picture last rendered.
pub struct Universe {
    width: u32,
    height: u32,
    dots: Vec<Dot>,
    pending_events: Vec<ForceEvent>,
    image_data: Vec<u8>,
    grid: SpatialGrid,
}

/// What a field holds, as plain values.
pub struct UniverseView {
    pub width: u32,
    pub height: u32,
    pub dots: Seq<Dot>,
    pub pending_events: Seq<ForceEvent>,
    pub image_data: Seq<u8>,
}

impl View for Universe {
    type V = UniverseView;

    closed spec fn view(&self) -> UniverseView {
        UniverseView {
            width: self.width,
            height: self.height,
            dots: self.dots@,
            pending_events: self.pending_events@,
            image_data: self.image_data@,
        }
    }
}

impl Universe {
    /// The grid has the cells that the extent asks for and files every dot.
    pub closed spec fn grid_ready(&self) -> bool {
        &&& self.grid.wf()
        &&& self.grid.cell_size == GRID_SIZE * SCALE
        &&& self.grid.grid_columns == self.width / GRID_SIZE
        &&& self.grid.grid_rows == self.height / GRID_SIZE
        &&& self.grid.holds(self.dots@)
    }

    /// The field is at least one cell wide and high, its grid is up to date,
    /// the picture has four bytes for each whole unit of area, and every
    /// scalar of every dot and event is storable.
    pub open spec fn wf(&self) -> bool {
        &&& self@.width >= GRID_SIZE
        &&& self@.height >= GRID_SIZE
        &&& self.grid_ready()
        &&& self@.image_data.len() == self@.width * self@.height * 4
        &&& forall|i: int| 0 <= i < self@.dots.len() ==> (#[trigger] self@.dots[i]).wf()
        &&& forall|k: int|
            0 <= k < self@.pending_events.len() ==> (#[trigger] self@.pending_events[k]).wf()
    }

    /// A field of `width` by `height` whole units with `num_dots` resting
    /// dots, each at a place that two draws from `rng` pick, first the one
    /// for the first axis. Nothing is pending and the picture is blank.
    pub fn new<R: UnitSource>(width: u32, height: u32, num_dots: usize, rng: &mut R) -> (r:
        Universe)
        requires
            width >= GRID_SIZE,
            height >= GRID_SIZE,
            width * height * 4 <= usize::MAX,
        ensures
            r.wf(),
            r@.width == width,
            r@.height == height,
            r@.dots.len() == num_dots,
            forall|i: int|
                0 <= i < num_dots ==> spawned(#[trigger] r@.dots[i], width as int, height as int),
            forall|i: int|
                0 <= i < num_dots ==> 0 <= (#[trigger] r@.dots[i]).pos.x < width * SCALE && 0
                    <= r@.dots[i].pos.y < height * SCALE,
            r@.pending_events.len() == 0,
            r@.image_data == Seq::new((width * height * 4) as nat, |i: int| 0u8),
    {
        let grid_columns: usize = (width / GRID_SIZE) as usize;
        let grid_rows: usize = (height / GRID_SIZE) as usize;
        assert(0 <= grid_columns * grid_rows <= width * height) by (nonlinear_arith)
            requires
                0 <= grid_columns <= width,
                0 <= grid_rows <= height,
        ;
        assert(GRID_SIZE * SCALE == 10_000) by (nonlinear_arith)
            requires
                GRID_SIZE == 10,
                SCALE == 1000,
        ;
        let mut grid = SpatialGrid::new(GRID_SIZE as i64 * SCALE, grid_columns, grid_rows);
        let mut dots: Vec<Dot> = Vec::new();
        let mut i: usize = 0;
        while i < num_dots
            invariant
                i <= num_dots,
                dots.len() == i,
                0 < width,
                0 < height,
                forall|n: int|
                    0 <= n < i ==> spawned(#[trigger] dots@[n], width as int, height as int),
                forall|n: int| 0 <= n < i ==> (#[trigger] dots@[n]).wf(),
                forall|n: int|
                    0 <= n < i ==> 0 <= (#[trigger] dots@[n]).pos.x < width * SCALE && 0
                        <= dots@[n].pos.y < height * SCALE,
            decreases num_dots - i,
        {
            let draw_x: u32 = rng.next_unit();
            let draw_y: u32 = rng.next_unit();
            let pos = Vec2d { x: place(draw_x, width), y: place(draw_y, height) };
            let dir = Vec2d { x: 0, y: 0 };
            proof {
                lemma_placed(draw_x as int, width as int);
                lemma_placed(draw_y as int, height as int);
                assert(width * SCALE <= 0xffff_ffff * 1000 && height * SCALE <= 0xffff_ffff * 1000)
                    by (nonlinear_arith)
                    requires
                        width <= 0xffff_ffff,
                        height <= 0xffff_ffff,
                        SCALE == 1000,
                ;
            }
            dots.push(Dot { pos, dir, state: State::Idle });
            i = i + 1;
        }
        grid.rebuild(&dots);
        let pending_events: Vec<ForceEvent> = Vec::new();
        assert(width * height * 4 == (width * height) * 4 && 0 <= width * height)
            by (nonlinear_arith);
        let size: usize = (width as usize) * (height as usize) * 4;
        let mut image_data: Vec<u8> = Vec::new();
        let mut made: usize = 0;
        while made < size
            invariant
                made <= size,
                image_data.len() == made,
                forall|n: int| 0 <= n < made ==> #[trigger] image_data@[n] == 0u8,
            decreases size - made,
        {
            image_data.push(0);
            made = made + 1;
        }
        proof {
            assert(image_data@ =~= Seq::new((width * height * 4) as nat, |i: int| 0u8));
        }
        Universe { width, height, dots, pending_events, image_data, grid }
    }

    /// The extent of the field along the first axis, in whole units.
    pub fn width(&self) -> (r: u32)
        ensures
            r == self@.width,
    {
        self.width
    }

    /// The extent of the field along the second axis, in whole units.
    pub fn height(&self) -> (r: u32)
        ensures
            r == self@.height,
    {
        self.height
    }

    /// The number of dots in the field.
    pub fn remaining_dots(&self) -> (r: usize)
        ensures
            r == self@.dots.len(),
    {
        self.dots.len()
    }

    /// The number of impulses still to be worked off.
    pub fn pending_count(&self) -> (r: usize)
        ensures
            r == self@.pending_events.len(),
    {
        self.pending_events.len()
    }

    /// The dot at `index`.
    pub fn dot(&self, index: usize) -> (r: Dot)
        requires
            index < self@.dots.len(),
        ensures
            r == self@.dots[index as int],
    {
        self.dots[index]
    }

    /// The picture as it was last rendered.
    pub fn image_data(&self) -> (r: &Vec<u8>)
        ensures
            r@ == self@.image_data,
    {
        &self.image_data
    }

    /// Puts an impulse at `x` and `y` with the radius `radius` on top of the
    /// pending impulses. A value beyond the limit of stored scalars is
    /// clamped to it.
    pub fn add_event(&mut self, x: i64, y: i64, radius: i64)
        requires
            old(self).wf(),
        ensures
            final(self).wf(),
            final(self)@ == (UniverseView {
                pending_events: old(self)@.pending_events.push(
                    ForceEvent {
                        position: Vec2d { x: clamp(x as int) as i64, y: clamp(y as int) as i64 },
                        radius: clamp(radius as int) as i64,
                    },
                ),
                ..old(self)@
            }),
    {
        self.pending_events.push(
            ForceEvent {
                position: Vec2d { x: saturate(x as i128), y: saturate(y as i128) },
                radius: saturate(radius as i128),
            },
        );
    }

    /// Works off up to `max_events` pending impulses, the last one pushed
    /// first; what is left over stays for a later call.
    ///
    /// For each impulse the grid names the dots in the cells under its
    /// bounding square, and each of them that lies closer to the centre than
    /// the radius is pushed, and lit if it rests. The time a dot burns comes
    /// from `rng`, one draw for each dot that is lit.
    pub fn handle_events<R: UnitSource>(&mut self, max_events: usize, rng: &mut R)
        requires
            old(self).wf(),
        ensures
            final(self).wf(),
            final(self)@.width == old(self)@.width,
            final(self)@.height == old(self)@.height,
            final(self)@.image_data == old(self)@.image_data,
            old(self)@.pending_events.len() - final(self)@.pending_events.len() <= max_events,
            ({
                let stack = old(self)@.pending_events;
                let count = if max_events <= stack.len() {
                    max_events as nat
                } else {
                    stack.len()
                };
                &&& final(self)@.pending_events == stack.take(stack.len() - count)
                &&& final(self)@.dots.len() == old(self)@.dots.len()
                &&& forall|i: int|
                    0 <= i < old(self)@.dots.len() ==> outcome(
                        old(self)@.dots[i],
                        stack,
                        count,
                        #[trigger] final(self)@.dots[i],
                    )
            }),
    {
        let ghost stack = self.pending_events@;
        let ghost start = self.dots@;
        let mut done: usize = 0;
        proof {
            assert(stack.take(stack.len() as int) =~= stack);
        }
        while done < max_events && self.pending_events.len() > 0
            invariant
                done <= max_events,
                done <= stack.len(),
                self.pending_events@ == stack.take(stack.len() - done),
                self.width == old(self).width,
                self.height == old(self).height,
                self.image_data@ == old(self).image_data@,
                self.grid == old(self).grid,
                self.grid.wf(),
                self.grid.holds(self.dots@),
                self.dots.len() == start.len(),
                forall|k: int| 0 <= k < stack.len() ==> (#[trigger] stack[k]).wf(),
                forall|i: int| 0 <= i < start.len() ==> (#[trigger] self.dots@[i]).wf(),
                forall|i: int|
                    0 <= i < start.len() ==> outcome(
                        start[i],
                        stack,
                        done as nat,
                        #[trigger] self.dots@[i],
                    ),
            decreases max_events - done,
        {
            let event: ForceEvent = self.pending_events.pop().unwrap();
            let ghost between = self.dots@;
            let (top_left, bottom_right) = event.bounds();
            let dot_indices: Vec<usize> = self.grid.indices_in_rect(top_left, bottom_right);
            proof {
                assert(event == stack[stack.len() - done - 1]);
                assert(self.pending_events@ =~= stack.take(stack.len() - done - 1));
                self.grid.lemma_indices_in_rect(between, top_left, bottom_right);
                assert(dot_indices@.take(0).len() == 0);
            }
            let mut c: usize = 0;
            while c < dot_indices.len()
                invariant
                    c <= dot_indices.len(),
                    dot_indices@.no_duplicates(),
                    forall|j: int|
                        0 <= j < dot_indices.len() ==> #[trigger] dot_indices@[j] < between.len(),
                    event.wf(),
                    self.dots.len() == between.len(),
                    self.pending_events@ == stack.take(stack.len() - done - 1),
                    self.width == old(self).width,
                    self.height == old(self).height,
                    self.image_data@ == old(self).image_data@,
                    self.grid == old(self).grid,
                    forall|i: int| 0 <= i < between.len() ==> (#[trigger] between[i]).wf(),
                    forall|i: int| 0 <= i < between.len() ==> (#[trigger] self.dots@[i]).wf(),
                    forall|i: int|
                        0 <= i < between.len() ==> if dot_indices@.take(c as int).contains(
                            i as usize,
                        ) {
                            struck(between[i], event, #[trigger] self.dots@[i])
                        } else {
                            self.dots@[i] == between[i]
                        },
                decreases dot_indices.len() - c,
            {
                let index: usize = dot_indices[c];
                let dot: Dot = self.dots[index];
                proof {
                    lemma_take_one_more(dot_indices@, c as int, index);
                    assert(dot == between[index as int]);
                }
                let ghost earlier = self.dots@;
                match event.impulse_on(dot.pos) {
                    Some(push) => {
                        let new_state = match dot.state {
                            State::Idle => {
                                let draw: u32 = rng.next_unit();
                                State::Idle.ignite(draw)
                            },
                            State::Detonating { remaining, total } => dot.state,
                        };
                        self.dots[index] = Dot {
                            pos: dot.pos,
                            dir: dot.dir + push,
                            state: new_state,
                        };
                    },
                    None => {},
                }
                proof {
                    assert(struck(dot, event, self.dots@[index as int]));
                    assert forall|i: int| 0 <= i < between.len() implies if dot_indices@.take(
                        c + 1,
                    ).contains(i as usize) {
                        struck(between[i], event, #[trigger] self.dots@[i])
                    } else {
                        self.dots@[i] == between[i]
                    } by {
                        lemma_take_one_more(dot_indices@, c as int, i as usize);
                        if i != index {
                            assert(self.dots@[i] == earlier[i]);
                        }
                    }
                }
                c = c + 1;
            }
            proof {
                assert(dot_indices@.take(c as int) =~= dot_indices@);
                assert forall|i: int| 0 <= i < start.len() implies outcome(
                    start[i],
                    stack,
                    (done + 1) as nat,
                    #[trigger] self.dots@[i],
                ) by {
                    if !dot_indices@.contains(i as usize) {
                        if event.reaches(between[i].pos) {
                            event.lemma_reach_within_bounds(between[i].pos);
                        }
                    }
                    assert(struck(between[i], event, self.dots@[i]));
                    lemma_outcome_next(start[i], stack, done as nat, between[i], self.dots@[i]);
                }
                assert forall|i: int| 0 <= i < between.len() implies (#[trigger] self.dots@[i]).pos
                    == between[i].pos by {
                    assert(struck(between[i], event, self.dots@[i]) || self.dots@[i]
                        == between[i]);
                }
                self.grid.lemma_holds_by_position(between, self.dots@);
            }
            done = done + 1;
        }
    }

    /// Advances the field by `time_delta`.
    ///
    /// Every dead dot leaves the field and an explosion at its place joins
    /// the pending impulses, in the order of the dots. Every living dot takes
    /// one step. The grid is filed anew, and then up to `MAX_EVENTS_PER_TICK`
    /// pending impulses are worked off, the last one pushed first.
    pub fn tick<R: UnitSource>(&mut self, time_delta: i64, rng: &mut R)
        requires
            old(self).wf(),
        ensures
            final(self).wf(),
            final(self)@.width == old(self)@.width,
            final(self)@.height == old(self)@.height,
            final(self)@.image_data == old(self)@.image_data,
            old(self)@.pending_events.len() + deaths(old(self)@.dots).len()
                - final(self)@.pending_events.len() <= MAX_EVENTS_PER_TICK,
            ({
                let stack = old(self)@.pending_events + deaths(old(self)@.dots);
                let moved = survivors(
                    old(self)@.dots,
                    time_delta as int,
                    old(self)@.width * SCALE,
                    old(self)@.height * SCALE,
                );
                let count = if MAX_EVENTS_PER_TICK <= stack.len() {
                    MAX_EVENTS_PER_TICK as nat
                } else {
                    stack.len()
                };
                &&& final(self)@.pending_events == stack.take(stack.len() - count)
                &&& final(self)@.dots.len() == moved.len()
                &&& forall|i: int|
                    0 <= i < moved.len() ==> outcome(
                        moved[i],
                        stack,
                        count,
                        #[trigger] final(self)@.dots[i],
                    )
            }),
    {
        assert(self.width * SCALE <= 0xffff_ffff * 1000 && self.height * SCALE <= 0xffff_ffff
            * 1000) by (nonlinear_arith)
            requires
                self.width <= 0xffff_ffff,
                self.height <= 0xffff_ffff,
                SCALE == 1000,
        ;
        let width: i64 = self.width as i64 * SCALE;
        let height: i64 = self.height as i64 * SCALE;
        let ghost before = self.dots@;
        let ghost waiting = self.pending_events@;
        let mut new_dots: Vec<Dot> = Vec::new();
        let mut i: usize = 0;
        proof {
            assert(before.take(0) =~= Seq::<Dot>::empty());
            assert(waiting + deaths(before.take(0)) =~= waiting);
            assert(self@.dots == before && self@.pending_events == waiting);
        }
        while i < self.dots.len()
            invariant
                i <= before.len(),
                self.dots@ == before,
                self.width == old(self).width,
                self.height == old(self).height,
                self.image_data@ == old(self).image_data@,
                self.grid == old(self).grid,
                self.pending_events@ == waiting + deaths(before.take(i as int)),
                new_dots@ == survivors(
                    before.take(i as int),
                    time_delta as int,
                    width as int,
                    height as int,
                ),
                forall|n: int| 0 <= n < before.len() ==> (#[trigger] before[n]).wf(),
                forall|n: int| 0 <= n < new_dots.len() ==> (#[trigger] new_dots@[n]).wf(),
                forall|k: int|
                    0 <= k < self.pending_events.len()
                        ==> (#[trigger] self.pending_events@[k]).wf(),
            decreases before.len() - i,
        {
            let dot: Dot = self.dots[i];
            proof {
                assert(before.take(i + 1).drop_last() =~= before.take(i as int));
                assert(before.take(i + 1).last() == dot);
                assert(dot.wf());
            }
            if dot.state.is_alive() {
                new_dots.push(dot.tick(time_delta, width, height));
            } else {
                self.pending_events.push(
                    ForceEvent { position: dot.pos, radius: EXPLOSION_RADIUS },
                );
                proof {
                    assert(self.pending_events@ =~= waiting + deaths(before.take(i + 1)));
                }
            }
            i = i + 1;
        }
        proof {
            assert(before.take(i as int) =~= before);
        }
        self.dots = new_dots;
        self.grid.rebuild(&self.dots);
        self.handle_events(MAX_EVENTS_PER_TICK, rng);
    }

    /// Renders the field into its picture: the picture is cleared, then every
    /// dot is drawn, in the order of the dots.
    pub fn render_image_data(&mut self)
        requires
            old(self).wf(),
        ensures
            final(self).wf(),
            final(self)@ == (UniverseView {
                image_data: painted(
                    cleared(old(self)@.image_data),
                    old(self)@.dots,
                    old(self)@.width as int,
                ),
                ..old(self)@
            }),
    {
        let ghost blank = cleared(self.image_data@);
        assert(self.width * self.height * 4 == (self.width * self.height) * 4)
            by (nonlinear_arith);
        clear_pixels(&mut self.image_data);
        let mut i: usize = 0;
        while i < self.dots.len()
            invariant
                i <= self.dots.len(),
                self.dots@ == old(self).dots@,
                self.pending_events@ == old(self).pending_events@,
                self.width == old(self).width,
                self.height == old(self).height,
                self.grid == old(self).grid,
                forall|n: int| 0 <= n < self.dots.len() ==> (#[trigger] self.dots@[n]).wf(),
                self.image_data@ == painted(blank, self.dots@.take(i as int), self.width as int),
            decreases self.dots.len() - i,
        {
            proof {
                assert(self.dots@.take(i + 1).drop_last() =~= self.dots@.take(i as int));
            }
            paint_dot(&mut self.image_data, &self.dots[i], self.width);
            i = i + 1;
        }
        proof {
            assert(self.dots@.take(i as int) =~= self.dots@);
            lemma_painted_len(blank, self.dots@, self.width as int);
        }
    }
}

} // verus!
