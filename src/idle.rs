//! The idle platform: nothing but the rainbow animation.

use vstd::prelude::*;
use crate::common::LED_COUNT;
use crate::display::{rainbow_leds, snapshot, white_led, Display};

verus! {

/// A platform that only animates its display.
#[derive(Debug)]
pub struct PlatformIdle {
    pub display: Display,
}

impl PlatformIdle {
    pub open spec fn wf(self) -> bool {
        self.display.wf()
    }

    /// A platform on an all-white display at tick zero.
    pub fn new() -> (r: PlatformIdle)
        ensures
            r.wf(),
            r.display.counter == 0,
            forall|i: int| 0 <= i < LED_COUNT ==> #[trigger] r.display.leds@[i] == white_led(),
    {
        PlatformIdle { display: Display::new() }
    }

    /// The display as text (see `Display::get_circle`).
    pub fn get_circle(&self) -> (r: String)
        ensures
            r@ == snapshot(self.display.leds@),
    {
        self.display.get_circle()
    }

    /// One tick: the counter advances and the rainbow animation runs.
    pub fn message(&mut self)
        requires
            old(self).wf(),
        ensures
            final(self).wf(),
            final(self).display.counter == (if old(self).display.counter < usize::MAX {
                old(self).display.counter + 1
            } else {
                0
            }),
            final(self).display.leds@ == rainbow_leds(old(self).display.leds@, final(self).display.counter as int),
    {
        self.display.tick();
        self.display.rainbow();
    }
}

} // verus!
