//! A scripted pin: plays back a fixed level trace, one entry per
//! microsecond.  Beyond the end of the script the line stays low.  It lets
//! the protocol-timing logic run against chosen edge timings with no
//! hardware attached.
use vstd::prelude::*;

verus! {

use crate::pin::{sat_add, SensorPin};

/// A simulated bidirectional line whose levels follow a fixed script.
pub struct SimPin {
    levels: Vec<bool>,
    pos: u64,
}

impl SimPin {
    /// A simulated pin at instant 0 whose line holds `levels[t]` at
    /// microsecond `t` and stays low after the script ends.
    pub fn new(levels: Vec<bool>) -> (pin: SimPin)
        ensures
            pin.now_us_spec() == 0,
            forall|t: int|
                #[trigger] pin.line_level(t) == (0 <= t < levels@.len() && levels@[t]),
    {
        SimPin { levels, pos: 0 }
    }
}

impl SensorPin for SimPin {
    closed spec fn now_us_spec(&self) -> int {
        self.pos as int
    }

    closed spec fn line_level(&self, t: int) -> bool {
        0 <= t < self.levels@.len() && self.levels@[t]
    }

    fn set_as_output(&mut self) {
    }

    fn set_as_input(&mut self) {
    }

    fn set_high(&mut self) {
    }

    fn set_low(&mut self) {
    }

    fn read_level(&mut self) -> (high: bool) {
        let high = self.pos < self.levels.len() as u64 && self.levels[self.pos as usize];
        if self.pos < u64::MAX {
            self.pos = self.pos + 1;
        }
        high
    }

    fn busy_wait_us(&mut self, us: u64) {
        if us <= u64::MAX - self.pos {
            self.pos = self.pos + us;
        } else {
            self.pos = u64::MAX;
        }
    }

    fn now_us(&self) -> (t: u64) {
        self.pos
    }
}

} // verus!
