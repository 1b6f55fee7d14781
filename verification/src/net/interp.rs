//! Tick-based render-behind interpolation: which snapshots are blended, and
//! from when on.
//!
//! Server snapshots arrive at a fixed rate, but the client renders faster.
//! Render-behind shows remote entities slightly in the past, so it always
//! interpolates between two snapshots that have already arrived — no
//! extrapolation, no freezing, smooth at any framerate.
//!
//! Instants are nanoseconds on a clock that never runs backwards. The blend
//! factor itself is the renderer's arithmetic.

use vstd::prelude::*;

verus! {

/// Three-deep snapshot-tick clock for render-behind interpolation.
///
/// We always render the *older* pair (`from2` → `from`) while the newest
/// snapshot (`to`) is held in reserve as the future anchor, so even if a
/// snapshot is a few ms late we have already-buffered data covering the gap.
///
/// A 2-deep buffer can't do this: it would have to choose between freezing
/// and extrapolating past `to`.
#[derive(Copy, Clone, Debug, PartialEq, Eq, Structural)]
pub struct InterpClock {
    /// Oldest tracked snapshot tick (render lerps from here, t=0).
    pub from2_tick: u32,
    /// Middle snapshot tick (render lerps toward here, t=1).
    pub from_tick: u32,
    /// Newest snapshot tick — kept as future anchor, not yet rendered.
    pub to_tick: u32,
    /// When the newest snapshot was applied. `None` before any snapshot.
    pub to_recv: Option<u64>,
}

impl Default for InterpClock {
    fn default() -> (c: Self)
        ensures
            c == unarmed(),
    {
        InterpClock { from2_tick: 0, from_tick: 0, to_tick: 0, to_recv: None }
    }
}

/// A clock that has seen nothing.
pub open spec fn unarmed() -> InterpClock {
    InterpClock { from2_tick: 0, from_tick: 0, to_tick: 0, to_recv: None }
}

/// A clock rolled forward: oldest drops, mid becomes oldest, newest becomes
/// mid, the just-arrived snapshot becomes newest.
pub open spec fn rolled(c: InterpClock, new_tick: u32, now: u64) -> InterpClock {
    InterpClock {
        from2_tick: c.from_tick,
        from_tick: c.to_tick,
        to_tick: new_tick,
        to_recv: Some(now),
    }
}

/// Whether there is a pair to blend: three snapshots were seen, and the older
/// two are in order.
pub open spec fn armed(c: InterpClock) -> bool {
    &&& c.to_recv is Some
    &&& c.from2_tick != 0
    &&& c.from_tick != 0
    &&& c.to_tick != 0
    &&& c.from_tick > c.from2_tick
}

impl InterpClock {
    /// Roll the clock forward. Call once per applied snapshot after the
    /// per-entity buffers have rolled.
    pub fn record(&mut self, new_tick: u32, now: u64)
        ensures
            *final(self) == rolled(*old(self), new_tick, now),
    {
        self.from2_tick = self.from_tick;
        self.from_tick = self.to_tick;
        self.to_tick = new_tick;
        self.to_recv = Some(now);
    }

    /// Reset on disconnect / forced teleport. Caller clears the per-entity
    /// buffers alongside.
    pub fn clear(&mut self)
        ensures
            *final(self) == unarmed(),
    {
        self.from2_tick = 0;
        self.from_tick = 0;
        self.to_tick = 0;
        self.to_recv = None;
    }

    /// How long the newest snapshot has been in, where there is a pair to
    /// blend. `None` while still warming up, so the caller can render at the
    /// freshest available snapshot directly.
    pub fn elapsed(&self, now: u64) -> (r: Option<u64>)
        ensures
            r is Some == armed(*self),
            r matches Some(n) ==> n == if now > self.to_recv->0 {
                now - self.to_recv->0
            } else {
                0
            },
    {
        match self.to_recv {
            None => None,
            Some(recv) => {
                if self.from2_tick == 0 || self.from_tick == 0 || self.to_tick == 0 {
                    return None;
                }
                if self.from_tick <= self.from2_tick {
                    return None;
                }
                if now > recv {
                    Some(now - recv)
                } else {
                    Some(0)
                }
            },
        }
    }
}

/// Three snapshots in order arm a clock, however it stood before; the pair
/// that is blended is the first two.
pub proof fn law_three_snapshots_arm(c: InterpClock, x: u32, y: u32, z: u32, now: u64)
    requires
        0 < x < y < z,
    ensures
        ({
            let after = rolled(rolled(rolled(c, x, now), y, now), z, now);
            armed(after) && after.from2_tick == x && after.from_tick == y
        }),
{
}

/// Fewer than three snapshots never do.
pub proof fn law_two_snapshots_do_not_arm(x: u32, y: u32, now: u64)
    ensures
        !armed(unarmed()),
        !armed(rolled(unarmed(), x, now)),
        !armed(rolled(rolled(unarmed(), x, now), y, now)),
{
}

/// A roll hands over without a gap: the pair that is blended next begins where
/// the pair before ended.
pub proof fn law_a_roll_continues_where_it_was(c: InterpClock, new_tick: u32, now: u64)
    ensures
        rolled(c, new_tick, now).from2_tick == c.from_tick,
        rolled(c, new_tick, now).from_tick == c.to_tick,
{
}

/// A roll sets the newest snapshot and the time it came, and forgets only the
/// oldest.
pub proof fn law_a_roll_takes_in_the_newest(c: InterpClock, new_tick: u32, now: u64)
    ensures
        rolled(c, new_tick, now).to_tick == new_tick,
        rolled(c, new_tick, now).to_recv == Some(now),
        rolled(rolled(c, new_tick, now), new_tick, now).from_tick == new_tick,
        rolled(rolled(rolled(c, new_tick, now), new_tick, now), new_tick, now).from2_tick
            == new_tick,
{
}

/// What the clock answers: nothing while a snapshot is missing or the older two
/// are out of order, else the time since the newest came, never less than zero.
pub proof fn law_the_clock_counts_from_the_newest(c: &InterpClock, now: u64, r: Option<u64>)
    requires
        call_ensures(InterpClock::elapsed, (c, now), r),
    ensures
        c.to_recv is None || c.from2_tick == 0 || c.from_tick == 0 || c.to_tick == 0 ==> r is None,
        c.from_tick <= c.from2_tick ==> r is None,
        c.to_recv is Some && 0 < c.from2_tick < c.from_tick && c.to_tick > 0 ==> r is Some,
        r is Some && now >= c.to_recv->0 ==> c.to_recv->0 + r->0 == now,
        r is Some && now < c.to_recv->0 ==> r->0 == 0,
{
}

/// What taking in a snapshot does to a clock, and what clearing it does.
pub proof fn law_what_recording_and_clearing_do(new_tick: u32, now: u64)
    ensures
        forall|c: &mut InterpClock| #[trigger]
            call_ensures(InterpClock::record, (c, new_tick, now), ()) ==> {
                let after = *final(c);
                &&& after.to_tick == new_tick && after.to_recv == Some(now)
                &&& after.from_tick == c.to_tick && after.from2_tick == c.from_tick
            },
        forall|c: &mut InterpClock| #[trigger]
            call_ensures(InterpClock::clear, (c,), ()) ==> {
                let after = *final(c);
                after.to_recv is None && after.to_tick == 0 && after.from_tick == 0
                    && after.from2_tick == 0
            },
{
}

} // verus!
