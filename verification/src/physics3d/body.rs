//! What a body is allowed to do, and when it sleeps.

use vstd::prelude::*;

verus! {

/// What moves a body, and what it moves in response to.
#[derive(Copy, Clone, Debug, PartialEq, Eq, Structural)]
pub enum BodyKind {
    /// Moved by forces and impulses. Falls, bounces, is pushed.
    Dynamic,
    /// Moved only by whatever sets its transform, but pushes dynamic bodies
    /// out of the way. A lift, a moving platform, a character controller.
    Kinematic,
    /// Never moves. Level geometry.
    Static,
}

impl Default for BodyKind {
    fn default() -> (k: Self)
        ensures
            k == BodyKind::Dynamic,
    {
        BodyKind::Dynamic
    }
}

impl BodyKind {
    /// Whether the solver may move this body.
    pub fn is_dynamic(self) -> (r: bool)
        ensures
            r == (self == BodyKind::Dynamic),
    {
        matches!(self, BodyKind::Dynamic)
    }
}

/// What the decisions read of a body.
#[derive(Copy, Clone, Debug, PartialEq, Eq, Structural)]
pub struct BodyState {
    pub kind: BodyKind,
    /// Whether this body is currently asleep and skipped by the solver. A
    /// scene of settled objects should cost nothing, and without sleeping a
    /// stack of crates jitters forever at the solver's error floor.
    pub sleeping: bool,
    /// Whether it moves slowly enough to be a sleep candidate.
    pub still: bool,
}

impl BodyState {
    /// Whether the solver moves this body.
    pub open spec fn movable(self) -> bool {
        self.kind == BodyKind::Dynamic && !self.sleeping
    }

    /// Whether the solver should move this body right now.
    ///
    /// Both conditions matter: a static body never moves, and a sleeping
    /// dynamic one is skipped until something wakes it.
    pub fn is_movable(&self) -> (r: bool)
        ensures
            r == self.movable(),
    {
        self.kind.is_dynamic() && !self.sleeping
    }

    /// Wake a sleeping body. Its timer starts over.
    ///
    /// Called whenever something touches it. A body that is hit while asleep
    /// and *stays* asleep is the classic "bullet passes through the crate"
    /// bug.
    pub fn wake(&mut self)
        ensures
            *final(self) == (BodyState { sleeping: false, ..*old(self) }),
    {
        self.sleeping = false;
    }
}

/// What happens to a body's sleep after a step.
#[derive(Copy, Clone, Debug, PartialEq, Eq, Structural)]
pub enum SleepStep {
    /// It is not up for sleep: it cannot move, or sleeps already.
    Unchanged,
    /// It moved: the clock starts over.
    Restart,
    /// It was still for another step.
    Count,
    /// It was still for long enough: it falls asleep and its velocity is
    /// zeroed outright — one that kept its last velocity would drift
    /// imperceptibly forever.
    FallAsleep,
}

/// The next step of a body's sleep.
pub open spec fn sleep_after(b: BodyState, long_enough: bool) -> SleepStep {
    if !b.movable() {
        SleepStep::Unchanged
    } else if !b.still {
        SleepStep::Restart
    } else if long_enough {
        SleepStep::FallAsleep
    } else {
        SleepStep::Count
    }
}

/// Update one body's sleep state for a step that has just run.
///
/// A body must be still for long enough continuously, this step counted in;
/// any motion resets the clock.
pub fn update_sleep(b: &mut BodyState, long_enough: bool) -> (step: SleepStep)
    ensures
        step == sleep_after(*old(b), long_enough),
        *final(b) == (BodyState {
            sleeping: old(b).sleeping || step == SleepStep::FallAsleep,
            ..*old(b)
        }),
{
    if !b.kind.is_dynamic() || b.sleeping {
        return SleepStep::Unchanged;
    }
    if b.still {
        if long_enough {
            b.sleeping = true;
            SleepStep::FallAsleep
        } else {
            SleepStep::Count
        }
    } else {
        SleepStep::Restart
    }
}

/// A body in motion never falls asleep, and its clock starts over.
pub proof fn law_motion_keeps_a_body_awake(b: BodyState, long_enough: bool)
    requires
        b.movable(),
        !b.still,
    ensures
        sleep_after(b, long_enough) == SleepStep::Restart,
{
}

/// What cannot move does not sleep either, and a sleeper is left alone.
pub proof fn law_only_movers_fall_asleep(b: BodyState, long_enough: bool)
    requires
        b.kind != BodyKind::Dynamic || b.sleeping,
    ensures
        sleep_after(b, long_enough) == SleepStep::Unchanged,
{
}

/// When a body falls asleep: exactly where the solver may move it, it is awake,
/// it is still, and it has been for long enough. While it is still its clock
/// runs, and any motion starts the clock over.
pub proof fn law_stillness_long_enough_is_sleep(b: BodyState, long_enough: bool)
    ensures
        sleep_after(b, long_enough) == SleepStep::FallAsleep <==> b.kind == BodyKind::Dynamic
            && !b.sleeping && b.still && long_enough,
        sleep_after(b, long_enough) == SleepStep::Count <==> b.kind == BodyKind::Dynamic
            && !b.sleeping && b.still && !long_enough,
        sleep_after(b, long_enough) == SleepStep::Restart <==> b.kind == BodyKind::Dynamic
            && !b.sleeping && !b.still,
        sleep_after(b, long_enough) == SleepStep::Unchanged <==> b.kind != BodyKind::Dynamic
            || b.sleeping,
{
}

/// The solver moves a body exactly where it is dynamic and awake.
pub proof fn law_only_awake_dynamic_bodies_move(b: &BodyState, dynamic: bool, movable: bool)
    requires
        call_ensures(BodyKind::is_dynamic, (b.kind,), dynamic),
        call_ensures(BodyState::is_movable, (b,), movable),
    ensures
        dynamic <==> b.kind == BodyKind::Dynamic,
        movable <==> b.kind == BodyKind::Dynamic && !b.sleeping,
{
}

/// What waking a body does, and what a step of its sleep does: it falls asleep
/// exactly where it can be moved, is still and has been for long enough, and
/// nothing else about it changes.
pub proof fn law_what_waking_and_sleeping_do(long_enough: bool, step: SleepStep)
    ensures
        forall|b: &mut BodyState| #[trigger]
            call_ensures(BodyState::wake, (b,), ()) ==> {
                let after = *final(b);
                !after.sleeping && after.kind == b.kind && after.still == b.still
            },
        forall|b: &mut BodyState| #[trigger]
            call_ensures(update_sleep, (b, long_enough), step) ==> {
                let after = *final(b);
                let falls = b.kind is Dynamic && !b.sleeping && b.still && long_enough;
                &&& after.kind == b.kind && after.still == b.still
                &&& after.sleeping <==> b.sleeping || falls
                &&& step is FallAsleep <==> falls
                &&& step is Count <==> b.kind is Dynamic && !b.sleeping && b.still && !long_enough
                &&& step is Restart <==> b.kind is Dynamic && !b.sleeping && !b.still
            },
{
}

} // verus!
