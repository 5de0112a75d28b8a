//! Sources of chance.

use vstd::prelude::*;

verus! {

/// A source of chance, handed to the field by its host.
pub trait UnitSource {
    /// The next draw: a fraction of one, counted in 2^32ths.
    fn next_unit(&mut self) -> u32;
}

/// A source that hands out a given list of draws in order and starts over at
/// its end; with an empty list every draw is zero. It makes a run of the
/// field repeatable.
pub struct Replay {
    pub draws: Vec<u32>,
    pub next: usize,
}

impl Replay {
    /// The draw that comes next.
    pub open spec fn upcoming(&self) -> u32 {
        if self.draws.len() == 0 {
            0
        } else {
            self.draws@[(self.next % self.draws.len()) as int]
        }
    }

    /// A source that starts with the first of `draws`.
    pub fn new(draws: Vec<u32>) -> (r: Replay)
        ensures
            r.draws == draws,
            r.next == 0,
    {
        Replay { draws, next: 0 }
    }

    /// Hands out the draw that comes next and moves on by one.
    pub fn take(&mut self) -> (r: u32)
        ensures
            r == old(self).upcoming(),
            final(self).draws == old(self).draws,
            final(self).next == if old(self).draws.len() > 0 {
                (old(self).next % old(self).draws.len()) + 1
            } else {
                old(self).next as int
            },
    {
        if self.draws.len() == 0 {
            0
        } else {
            let at: usize = self.next % self.draws.len();
            self.next = at + 1;
            self.draws[at]
        }
    }
}

impl UnitSource for Replay {
    fn next_unit(&mut self) -> (r: u32)
        ensures
            r == old(self).upcoming(),
            final(self).draws == old(self).draws,
    {
        self.take()
    }
}

} // verus!
