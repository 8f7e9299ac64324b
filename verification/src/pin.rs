//! The capability interface the acquisition routine consumes: a
//! bidirectional digital line together with a microsecond-granularity time
//! source.  Real hardware supplies an implementation outside this crate; a
//! scripted implementation for exercising the protocol logic lives in
//! [`crate::sim`].
use vstd::prelude::*;

verus! {

/// Saturating addition on the modelled clock: the clock never moves past
/// `u64::MAX` microseconds.
pub open spec fn sat_add(t: int, d: int) -> int {
    if t + d <= u64::MAX as int {
        t + d
    } else {
        u64::MAX as int
    }
}

/// The poll period of an edge wait in microseconds: reading the line takes
/// one microsecond, and a paced wait adds an explicit one-microsecond delay
/// after each read.
pub open spec fn poll_step(pace: bool) -> int {
    if pace {
        2
    } else {
        1
    }
}

/// A bidirectional single-wire line with a microsecond clock.
///
/// The model is a clock `now_us_spec` (microseconds, saturating at
/// `u64::MAX`) and a fixed level trace `line_level` giving the level the
/// line has at each instant while the sensor drives it.  Reading the line
/// takes one microsecond of modelled time; switching direction or driving
/// the line takes none; a busy wait takes exactly its argument.
pub trait SensorPin: Sized {
    /// The current instant of the modelled clock, in microseconds.
    spec fn now_us_spec(&self) -> int;

    /// The level of the line at instant `t`: true is high, false is low.
    spec fn line_level(&self, t: int) -> bool;

    /// Switch the pin to output mode (the host drives the line).
    fn set_as_output(&mut self)
        requires
            0 <= old(self).now_us_spec() <= u64::MAX as int,
        ensures
            final(self).now_us_spec() == old(self).now_us_spec(),
            forall|t: int| #[trigger] final(self).line_level(t) == old(self).line_level(t),
    ;

    /// Switch the pin to input mode (the sensor drives the line).
    fn set_as_input(&mut self)
        requires
            0 <= old(self).now_us_spec() <= u64::MAX as int,
        ensures
            final(self).now_us_spec() == old(self).now_us_spec(),
            forall|t: int| #[trigger] final(self).line_level(t) == old(self).line_level(t),
    ;

    /// Drive the line high (output mode).
    fn set_high(&mut self)
        requires
            0 <= old(self).now_us_spec() <= u64::MAX as int,
        ensures
            final(self).now_us_spec() == old(self).now_us_spec(),
            forall|t: int| #[trigger] final(self).line_level(t) == old(self).line_level(t),
    ;

    /// Drive the line low (output mode).
    fn set_low(&mut self)
        requires
            0 <= old(self).now_us_spec() <= u64::MAX as int,
        ensures
            final(self).now_us_spec() == old(self).now_us_spec(),
            forall|t: int| #[trigger] final(self).line_level(t) == old(self).line_level(t),
    ;

    /// Read the level of the line at the current instant; takes one
    /// microsecond.
    fn read_level(&mut self) -> (high: bool)
        requires
            0 <= old(self).now_us_spec() <= u64::MAX as int,
        ensures
            high == old(self).line_level(old(self).now_us_spec()),
            final(self).now_us_spec() == sat_add(old(self).now_us_spec(), 1),
            forall|t: int| #[trigger] final(self).line_level(t) == old(self).line_level(t),
    ;

    /// Busy-wait for `us` microseconds.
    fn busy_wait_us(&mut self, us: u64)
        requires
            0 <= old(self).now_us_spec() <= u64::MAX as int,
        ensures
            final(self).now_us_spec() == sat_add(old(self).now_us_spec(), us as int),
            forall|t: int| #[trigger] final(self).line_level(t) == old(self).line_level(t),
    ;

    /// The current instant of the clock, in microseconds.
    fn now_us(&self) -> (t: u64)
        requires
            0 <= self.now_us_spec() <= u64::MAX as int,
        ensures
            t as int == self.now_us_spec(),
    ;
}

} // verus!
