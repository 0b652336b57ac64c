//! A chess clock with a per-move increment.
//!
//! Times are held in nanoseconds.  Every value lies between zero and the
//! largest span that `std::time::Duration` can hold, so the arithmetic below
//! saturates exactly as `Duration::saturating_add` and
//! `Duration::saturating_sub` do.
use vstd::prelude::*;

verus! {

/// The largest span a `std::time::Duration` can hold, in nanoseconds
/// (`u64::MAX` seconds and 999 999 999 nanoseconds).
pub const MAX_SPAN_NANOS: u128 = 18446744073709551615999999999u128;

/// Addition of two spans that stops at the largest span.
pub open spec fn span_saturating_add(a: int, b: int) -> int {
    if a + b > MAX_SPAN_NANOS { MAX_SPAN_NANOS as int } else { a + b }
}

/// Subtraction of two spans that stops at zero.
pub open spec fn span_saturating_sub(a: int, b: int) -> int {
    if a < b { 0 } else { a - b }
}

/// The time left to a player after a move that took `spent`, when the player
/// had `left` and the clock adds `increment` for every move.
pub open spec fn time_after_move(left: int, increment: int, spent: int) -> int {
    span_saturating_sub(span_saturating_add(left, increment), spent)
}

/// A span that a `Duration` can hold.
pub open spec fn is_span(n: u128) -> bool {
    n <= MAX_SPAN_NANOS
}

pub struct Clock {
    /// Time added to a player's clock for every move, in nanoseconds.
    pub increment: u128,
    /// White's remaining time, in nanoseconds.
    pub white_time_left: u128,
    /// Black's remaining time, in nanoseconds.
    pub black_time_left: u128,
}

impl Clock {
    /// Every field is a span that a `Duration` can hold.
    pub open spec fn wf(&self) -> bool {
        is_span(self.increment) && is_span(self.white_time_left) && is_span(self.black_time_left)
    }

    /// Charges white for a move that took `time`, after adding the increment.
    pub fn white_update(&mut self, time: u128)
        requires
            old(self).wf(),
            is_span(time),
        ensures
            final(self).wf(),
            final(self).white_time_left == time_after_move(
                old(self).white_time_left as int,
                old(self).increment as int,
                time as int,
            ),
            final(self).black_time_left == old(self).black_time_left,
            final(self).increment == old(self).increment,
    {
        self.white_time_left = saturating_add_span(self.white_time_left, self.increment);
        self.white_time_left = saturating_sub_span(self.white_time_left, time);
    }

    /// Charges black for a move that took `time`, after adding the increment.
    pub fn black_update(&mut self, time: u128)
        requires
            old(self).wf(),
            is_span(time),
        ensures
            final(self).wf(),
            final(self).black_time_left == time_after_move(
                old(self).black_time_left as int,
                old(self).increment as int,
                time as int,
            ),
            final(self).white_time_left == old(self).white_time_left,
            final(self).increment == old(self).increment,
    {
        self.black_time_left = saturating_add_span(self.black_time_left, self.increment);
        self.black_time_left = saturating_sub_span(self.black_time_left, time);
    }

    /// White has run out of time.
    pub fn white_flag(&self) -> (r: bool)
        ensures
            r == (self.white_time_left == 0),
    {
        self.white_time_left == 0
    }

    /// Black has run out of time.
    pub fn black_flag(&self) -> (r: bool)
        ensures
            r == (self.black_time_left == 0),
    {
        self.black_time_left == 0
    }

    /// Either player has run out of time.
    pub open spec fn flagged(&self) -> bool {
        self.white_time_left == 0 || self.black_time_left == 0
    }
}

/// `a + b`, or the largest span where that would exceed it.
pub fn saturating_add_span(a: u128, b: u128) -> (r: u128)
    requires
        is_span(a),
        is_span(b),
    ensures
        r == span_saturating_add(a as int, b as int),
        is_span(r),
{
    if a > MAX_SPAN_NANOS - b {
        MAX_SPAN_NANOS
    } else {
        a + b
    }
}

/// `a - b`, or zero where `b` exceeds `a`.
pub fn saturating_sub_span(a: u128, b: u128) -> (r: u128)
    requires
        is_span(a),
    ensures
        r == span_saturating_sub(a as int, b as int),
        is_span(r),
{
    if a < b {
        0
    } else {
        a - b
    }
}

/// A player's flag falls after a move exactly when the move took at least
/// the time the player had plus the increment (capped at the largest span).
pub proof fn lemma_flag_after_move(left: u128, increment: u128, spent: u128)
    requires
        is_span(left),
        is_span(increment),
        is_span(spent),
    ensures
        (time_after_move(left as int, increment as int, spent as int) == 0)
            <==> spent >= span_saturating_add(left as int, increment as int),
{
}

/// Charging a move that took no time leaves a player with at least the time
/// they had.
pub proof fn lemma_free_move_never_loses_time(left: u128, increment: u128)
    requires
        is_span(left),
        is_span(increment),
    ensures
        time_after_move(left as int, increment as int, 0) >= left,
{
}

} // verus!
