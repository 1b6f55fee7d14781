//! Random streams, as far as saving them goes.

use vstd::prelude::*;

verus! {

/// The position of a random stream: its state and its increment. A position
/// resumes a stream where it was; a seed would replay it from the beginning.
#[derive(Copy, Clone, Debug, PartialEq, Eq, Structural)]
pub struct Pcg32 {
    state: u64,
    inc: u64,
}

impl View for Pcg32 {
    type V = (u64, u64);

    closed spec fn view(&self) -> (u64, u64) {
        (self.state, self.inc)
    }
}

impl Pcg32 {
    /// The position, to save.
    pub fn state(&self) -> (r: (u64, u64))
        ensures
            r == self@,
    {
        (self.state, self.inc)
    }

    /// A stream at a saved position.
    pub fn from_state(position: (u64, u64)) -> (r: Self)
        ensures
            r@ == position,
    {
        Pcg32 { state: position.0, inc: position.1 }
    }
}

/// A stream resumes at the position it was saved at.
pub proof fn law_a_position_resumes_its_stream(p: &Pcg32, saved: (u64, u64), q: Pcg32)
    requires
        call_ensures(Pcg32::state, (p,), saved),
        call_ensures(Pcg32::from_state, (saved,), q),
    ensures
        q == *p,
{
}

} // verus!
