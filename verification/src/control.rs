//! Orchestration of one polling cycle.
//!
//! The daemon's loop is: read the illuminance sample, map it to a target
//! level, plan a transition from the level the backlight is at, then
//! drive each intermediate value to the backlight in order, pacing with
//! the configured delays, and idle until the next sample. The controller
//! here makes every decision of that cycle from plain values; the caller
//! only reads the sensor, writes the device and sleeps. Suspension points
//! are explicit: `begin_cycle` plans (and handles the degenerate
//! no-transition case by handing back the level to apply directly), and
//! each `advance` yields one level to write before the next per-step
//! delay.

use vstd::prelude::*;
use crate::brightness::is_level;
use crate::transform::Transform;
use crate::transform::to_brightness;
use crate::transition::Transition;
use crate::transition::step_count;
use crate::transition::step_value;

verus! {

/// The control loop's state: the fixed transform, the transition
/// engine, and the brightness level the backlight currently shows.
pub struct Controller {
    pub transform: Transform,
    pub transition: Transition,
    pub level: u32,
}

impl Controller {
    /// The table is valid, the engine's state is consistent, and the
    /// tracked level is a valid brightness.
    pub open spec fn wf(self) -> bool {
        &&& self.transform.wf()
        &&& self.transition.wf()
        &&& is_level(self.level)
    }

    /// A controller over a validated transform and a configured engine,
    /// starting from the backlight's current level.
    pub fn new(transform: Transform, transition: Transition, level: u32) -> (r: Controller)
        requires
            transform.wf(),
            transition.wf(),
            is_level(level),
        ensures
            r == (Controller { transform, transition, level }),
            r.wf(),
    {
        Controller { transform, transition, level }
    }

    /// Starts one cycle from a fresh sample: computes the target level
    /// and plans a transition from the current level toward it. When the
    /// jump is inside the dead zone the plan is empty and the target is
    /// handed back to be applied directly; the tracked level then moves
    /// to the target at once.
    pub fn begin_cycle(&mut self, sample: i32) -> (r: Option<u32>)
        requires
            old(self).wf(),
        ensures
            final(self).wf(),
            final(self).transform == old(self).transform,
            final(self).transition.step_ms == old(self).transition.step_ms,
            final(self).transition.sleep_ms == old(self).transition.sleep_ms,
            ({
                let target = to_brightness(old(self).transform.i2b@, sample as int);
                let n = step_count(old(self).level as int, target);
                &&& final(self).transition.start == old(self).level
                &&& final(self).transition.end == target
                &&& final(self).transition.steps == n
                &&& final(self).transition.cur == 0
                &&& (n == 0 ==> (r matches Some(v) && v as int == target && final(self).level as int
                    == target))
                &&& (n > 0 ==> r is None && final(self).level == old(self).level)
            }),
    {
        let target = self.transform.to_backlight(sample);
        self.transition.set(self.level, target);
        if self.transition.steps == 0 {
            self.level = target;
            Some(target)
        } else {
            None
        }
    }

    /// Yields the next level to write, or nothing once the planned
    /// transition is exhausted; the tracked level follows each yielded
    /// value.
    pub fn advance(&mut self) -> (r: Option<u32>)
        requires
            old(self).wf(),
        ensures
            final(self).wf(),
            final(self).transform == old(self).transform,
            old(self).transition.cur >= old(self).transition.steps ==> r is None && *final(self)
                == *old(self),
            old(self).transition.cur < old(self).transition.steps ==> {
                &&& r matches Some(v) && v as int == step_value(
                    old(self).transition.start as int,
                    old(self).transition.end as int,
                    old(self).transition.steps as int,
                    old(self).transition.cur as int,
                )
                &&& final(self).level == r->Some_0
                &&& final(self).transition == (Transition {
                    cur: (old(self).transition.cur + 1) as u32,
                    ..old(self).transition
                })
            },
    {
        let r = self.transition.next();
        match r {
            Some(v) => {
                self.level = v;
                Some(v)
            },
            None => None,
        }
    }
}

} // verus!
