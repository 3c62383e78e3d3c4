//! A one-byte sequence counter whose wraparound happens in one place.

use vstd::prelude::*;

verus! {

/// The successor of a sequence number, wrapping `255 -> 0`.
pub open spec fn seq_next(s: u8) -> u8 {
    if s == 255 { 0 } else { (s + 1) as u8 }
}

/// The predecessor of a sequence number, wrapping `0 -> 255`.
pub open spec fn seq_prev(s: u8) -> u8 {
    if s == 0 { 255 } else { (s - 1) as u8 }
}

/// How far `a` lies ahead of `b`, modulo 256.
pub open spec fn seq_dist(a: u8, b: u8) -> u8 {
    if a - b < 0 { (a - b + 256) as u8 } else { (a - b) as u8 }
}

/// A monotonically increasing (mod 256) sequence counter.
#[derive(Debug, Clone, Copy, Default, PartialEq, Eq, Structural)]
pub struct Sequence(u8);

impl View for Sequence {
    type V = u8;

    closed spec fn view(&self) -> u8 {
        self.0
    }
}

impl Sequence {
    /// A counter at `0`.
    pub fn new() -> (s: Sequence)
        ensures
            s@ == 0,
    {
        Sequence(0)
    }

    /// A counter at an explicit value.
    pub fn from_raw(value: u8) -> (s: Sequence)
        ensures
            s@ == value,
    {
        Sequence(value)
    }

    /// The current number, without advancing.
    pub fn current(&self) -> (v: u8)
        ensures
            v == self@,
    {
        self.0
    }

    /// Advances (wrapping `255 -> 0`) and returns the number that was
    /// current before advancing.
    pub fn advance(&mut self) -> (previous: u8)
        ensures
            previous == old(self)@,
            final(self)@ == seq_next(old(self)@),
    {
        let previous = self.0;
        self.0 = if self.0 == 255 { 0 } else { self.0 + 1 };
        previous
    }

    /// The number just before the current one (wrapping `0 -> 255`).
    pub fn previous(&self) -> (p: u8)
        ensures
            p == seq_prev(self@),
    {
        if self.0 == 0 { 255 } else { self.0 - 1 }
    }
}

/// Stepping back undoes stepping forward, for every sequence number.
pub proof fn lemma_prev_next(s: u8)
    ensures
        seq_prev(seq_next(s)) == s,
        seq_next(seq_prev(s)) == s,
{
}

} // verus!
