//! The picture of a field: four bytes for each whole unit of area, row by
//! row, of which the first shows how far a dot has burnt and the last whether
//! a dot is there.

use vstd::prelude::*;
use crate::dot::{Dot, State};
use crate::fixed::{lemma_quot_bounds, quot, SCALE};
use crate::vec2d::Vec2d;

verus! {

/// The brightness of a dot, from 0 to 255: the share of its time that a
/// burning dot has burnt, held between none and all of it.
pub open spec fn glow(state: State) -> int {
    match state {
        State::Idle => 0,
        State::Detonating { remaining, total } => {
            let burnt = if total >= 0 {
                total - remaining
            } else {
                remaining - total
            };
            let whole = if total >= 0 {
                total as int
            } else {
                -total
            };
            if whole == 0 {
                if remaining < 0 {
                    255
                } else {
                    0
                }
            } else if burnt <= 0 {
                0
            } else if burnt >= whole {
                255
            } else {
                quot(255 * burnt, whole)
            }
        },
    }
}

/// The place in the picture of the first byte of the unit square that
/// `position` lies in, in a picture `width` squares wide. A negative
/// coordinate counts as zero.
pub open spec fn pixel_index(position: Vec2d, width: int) -> int {
    let column = if position.x < 0 {
        0
    } else {
        position.x as int / SCALE as int
    };
    let row = if position.y < 0 {
        0
    } else {
        position.y as int / SCALE as int
    };
    (column + row * width) * 4
}

/// The picture with every first and every fourth byte set to zero.
pub open spec fn cleared(image: Seq<u8>) -> Seq<u8> {
    Seq::new(
        image.len(),
        |i: int|
            if i % 4 == 0 || i % 4 == 3 {
                0u8
            } else {
                image[i]
            },
    )
}

/// The picture with `dot` drawn into it: its brightness in the first byte of
/// its square and 255 in the fourth. A dot whose square is not in the picture
/// is not drawn.
pub open spec fn painted_dot(image: Seq<u8>, dot: Dot, width: int) -> Seq<u8> {
    let first = pixel_index(dot.pos, width);
    if 0 <= first && first + 3 < image.len() {
        image.update(first, glow(dot.state) as u8).update(first + 3, 255u8)
    } else {
        image
    }
}

/// The picture with `dots` drawn into it, one after the other.
pub open spec fn painted(image: Seq<u8>, dots: Seq<Dot>, width: int) -> Seq<u8>
    decreases dots.len(),
{
    if dots.len() == 0 {
        image
    } else {
        painted_dot(painted(image, dots.drop_last(), width), dots.last(), width)
    }
}

/// Drawing dots keeps the size of the picture.
pub proof fn lemma_painted_len(image: Seq<u8>, dots: Seq<Dot>, width: int)
    ensures
        painted(image, dots, width).len() == image.len(),
    decreases dots.len(),
{
    if dots.len() > 0 {
        lemma_painted_len(image, dots.drop_last(), width);
    }
}

/// Computes the brightness of a dot.
pub fn brightness(state: State) -> (r: u8)
    requires
        state.wf(),
    ensures
        r == glow(state),
{
    match state {
        State::Idle => 0,
        State::Detonating { remaining, total } => {
            let burnt: i128 = if total >= 0 {
                total as i128 - remaining as i128
            } else {
                remaining as i128 - total as i128
            };
            let whole: i128 = if total >= 0 {
                total as i128
            } else {
                -(total as i128)
            };
            if whole == 0 {
                if remaining < 0 {
                    255
                } else {
                    0
                }
            } else if burnt <= 0 {
                0
            } else if burnt >= whole {
                255
            } else {
                proof {
                    lemma_quot_bounds(255 * burnt, whole as int);
                    assert(quot(255 * burnt, whole as int) < 255) by (nonlinear_arith)
                        requires
                            quot(255 * burnt, whole as int) * whole <= 255 * burnt,
                            0 < burnt < whole,
                    ;
                }
                (255 * burnt / whole) as u8
            }
        },
    }
}

/// Sets the first and the fourth byte of every square to zero.
pub fn clear_pixels(image: &mut Vec<u8>)
    requires
        old(image).len() % 4 == 0,
    ensures
        final(image)@ == cleared(old(image)@),
{
    let mut x: usize = 0;
    while x < image.len()
        invariant
            x <= image.len(),
            x % 4 == 0,
            image.len() == old(image).len(),
            image.len() % 4 == 0,
            forall|i: int|
                0 <= i < x ==> #[trigger] image@[i] == if i % 4 == 0 || i % 4 == 3 {
                    0u8
                } else {
                    old(image)@[i]
                },
            forall|i: int| x <= i < image.len() ==> #[trigger] image@[i] == old(image)@[i],
        decreases image.len() - x,
    {
        image[x] = 0;
        image[x + 3] = 0;
        x = x + 4;
    }
    proof {
        assert(image@ =~= cleared(old(image)@));
    }
}

/// Draws one dot into a picture `width` squares wide.
pub fn paint_dot(image: &mut Vec<u8>, dot: &Dot, width: u32)
    requires
        dot.wf(),
    ensures
        final(image)@ == painted_dot(old(image)@, *dot, width as int),
{
    let column: i128 = if dot.pos.x < 0 {
        0
    } else {
        (dot.pos.x / SCALE) as i128
    };
    let row: i128 = if dot.pos.y < 0 {
        0
    } else {
        (dot.pos.y / SCALE) as i128
    };
    assert(0 <= row * width <= 1_000_000_000_000_000 * 0xffff_ffff) by (nonlinear_arith)
        requires
            0 <= row <= 1_000_000_000_000_000,
            0 <= width <= 0xffff_ffff,
    ;
    let first_index: i128 = (column + row * (width as i128)) * 4;
    if first_index + 3 < image.len() as i128 {
        let red: u8 = brightness(dot.state);
        let first: usize = first_index as usize;
        image[first] = red;
        image[first + 3] = 255;
    }
}

} // verus!
