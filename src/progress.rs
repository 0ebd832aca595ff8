//! A text progress bar: counts finished iterations and estimates the time left
//! from the duration of the last one.
use vstd::prelude::*;
use std::time::{Duration, Instant};

verus! {

/// `std::time::Instant`, carried opaquely by the progress bar.
#[verifier::external_type_specification]
#[verifier::external_body]
pub struct ExInstant(Instant);

/// Relies on `Instant::now`: the current instant (nothing is known of it).
pub assume_specification[ Instant::now ]() -> Instant;

/// Relies on `Instant::elapsed`: the time since the instant (nothing is known of it).
pub assume_specification[ Instant::elapsed ](this: &Instant) -> Duration;

/// Relies on `Duration::as_millis`: the whole milliseconds of the duration.
pub assume_specification[ Duration::as_millis ](this: &Duration) -> u128;

/// Width of the bar in characters.
pub const BAR_WIDTH: u32 = 40;

/// Progress over `total` iterations.
pub struct ProgressBar {
    pub total: u32,
    pub done: u32,
    pub prev_time: Instant,
    /// Milliseconds taken by the last iteration.
    pub iteration_elapsed: u128,
}

/// What a refresh of the bar shows.
#[derive(Clone, Copy, Debug, PartialEq, Eq, Structural)]
pub struct ProgressStatus {
    /// Characters of the bar that are filled, out of `BAR_WIDTH`.
    pub filled: u32,
    /// Characters of the bar that are empty.
    pub empty: u32,
    /// Whole percent done.
    pub percent: u32,
    pub minutes_left: u128,
    pub seconds_left: u128,
}

impl ProgressBar {
    /// A bar for `total` iterations, none done yet.
    pub fn new(total: u32) -> (r: ProgressBar)
        ensures
            r.total == total,
            r.done == 0,
            r.iteration_elapsed == 0,
    {
        ProgressBar { total, done: 0, prev_time: Instant::now(), iteration_elapsed: 0 }
    }

    /// Counts one more finished iteration and records how long it took.
    pub fn increment(&mut self)
        requires
            old(self).done < u32::MAX,
        ensures
            final(self).done == old(self).done + 1,
            final(self).total == old(self).total,
    {
        self.done += 1;
        self.iteration_elapsed = self.prev_time.elapsed().as_millis();
        self.prev_time = Instant::now();
    }

    /// The bar's filled and empty widths, the percentage done, and the time left:
    /// the last iteration's duration times the iterations left, in whole seconds,
    /// split into minutes and seconds.
    pub fn status(&self) -> (r: ProgressStatus)
        requires
            0 < self.total,
            self.done <= self.total,
            self.iteration_elapsed * (self.total - self.done) <= u128::MAX,
        ensures
            r.filled == self.done * BAR_WIDTH / (self.total as int),
            r.empty == BAR_WIDTH - r.filled,
            r.percent == self.done * 100 / (self.total as int),
            r.minutes_left == self.iteration_elapsed * (self.total - self.done) / 1000 / 60,
            r.seconds_left == (self.iteration_elapsed * (self.total - self.done) / 1000) % 60,
    {
        let done = self.done as u64;
        let total = self.total as u64;
        assert(done * 40 <= total * 40) by (nonlinear_arith)
            requires
                done <= total,
        ;
        assert(done * 100 <= total * 100) by (nonlinear_arith)
            requires
                done <= total,
        ;
        assert(done * 40 / (total as int) <= 40) by (nonlinear_arith)
            requires
                done <= total,
                0 < total,
        ;
        assert(done * 100 / (total as int) <= 100) by (nonlinear_arith)
            requires
                done <= total,
                0 < total,
        ;
        let filled = (done * 40 / total) as u32;
        let percent = (done * 100 / total) as u32;
        let time_left = self.iteration_elapsed * ((self.total - self.done) as u128) / 1000;
        ProgressStatus {
            filled,
            empty: BAR_WIDTH - filled,
            percent,
            minutes_left: time_left / 60,
            seconds_left: time_left % 60,
        }
    }
}

} // verus!
