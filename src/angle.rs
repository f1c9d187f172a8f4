use vstd::prelude::*;

verus! {

/// Fractions of pi by which the launch angle moves in one step.
pub const ANGLE_STEPS_PER_PI: u32 = 200;

/// Smallest launch angle, in steps: pi / 20.
pub const ANGLE_MIN_STEPS: u32 = 10;

/// Largest launch angle, in steps: 19 pi / 20.
pub const ANGLE_MAX_STEPS: u32 = 190;

/// Launch angle, counted in steps of pi / 200 from the horizontal to the right.
/// It never leaves `[pi / 20, 19 pi / 20]`, so a launch is never horizontal.
pub struct Angle {
    steps: u32,
}

impl Angle {
    pub closed spec fn view_steps(self) -> u32 {
        self.steps
    }

    /// The angle lies within its bounds.
    pub open spec fn wf(self) -> bool {
        ANGLE_MIN_STEPS <= self.view_steps() <= ANGLE_MAX_STEPS
    }

    /// Straight up: pi / 2.
    pub fn new() -> (r: Angle)
        ensures
            r.view_steps() == ANGLE_STEPS_PER_PI / 2,
            r.wf(),
    {
        Angle { steps: ANGLE_STEPS_PER_PI / 2 }
    }

    /// Turns the aim one step to the left, stopping at 19 pi / 20.
    pub fn incr(&mut self)
        ensures
            final(self).view_steps() == if old(self).view_steps() < ANGLE_MAX_STEPS {
                (old(self).view_steps() + 1) as u32
            } else {
                old(self).view_steps()
            },
            old(self).wf() ==> final(self).wf(),
    {
        if self.steps < ANGLE_MAX_STEPS {
            self.steps = self.steps + 1;
        }
    }

    /// Turns the aim one step to the right, stopping at pi / 20.
    pub fn decr(&mut self)
        ensures
            final(self).view_steps() == if old(self).view_steps() > ANGLE_MIN_STEPS {
                (old(self).view_steps() - 1) as u32
            } else {
                old(self).view_steps()
            },
            old(self).wf() ==> final(self).wf(),
    {
        if self.steps > ANGLE_MIN_STEPS {
            self.steps = self.steps - 1;
        }
    }

    /// The angle in steps of pi / 200.
    pub fn steps(&self) -> (r: u32)
        ensures
            r == self.view_steps(),
    {
        self.steps
    }
}

} // verus!
