//! Client-to-server input: held state, one-shot commands, and the rule for
//! reconciling frames that arrive out of order.
//!
//! # Why input has two halves
//!
//! A player's input is never one kind of thing. Walking is a *level*: a key is
//! held, and the newest report of it is the only one that matters — applying
//! an older one walks the character back the way they came. Firing is an
//! *event*: it happened once, and losing it means the player pressed a button
//! and nothing occurred.
//!
//! Encoding both as fields of a per-tick struct is the trap: a 60 Hz client
//! sending into a 30 Hz server emits a zero-valued packet between ticks, which
//! overwrites the one-shot before the simulation reads it. This carries both
//! halves explicitly.
//!
//! # What the engine does not decide
//!
//! The wire format. Both `H` and `C` are the game's own types and the game
//! encodes them. What is here is the *reconciliation rule*.

use crate::sorted_map::SortedMap;
use vstd::prelude::*;

verus! {

/// Which connected player a frame came from.
pub type PlayerId = u32;

/// Most commands the queue will hold for one player between drains.
///
/// A client sending faster than the server ticks is normal, and its commands
/// accumulate until the simulation takes them. A client sending *far* faster
/// is either broken or hostile, and an unbounded merge would let it make the
/// server do arbitrary work in one tick.
pub const MAX_PENDING_COMMANDS: usize = 32;

/// One client's input for one of its frames.
///
/// `H` is the held state — walk direction, throttle, whatever is a level
/// rather than an event. `C` is one discrete ask.
#[derive(Clone, Debug, PartialEq, Eq)]
pub struct InputFrame<H, C> {
    /// Counts up forever on the client. The server keeps the highest it has
    /// seen and echoes it back, so the client knows which of its own commands
    /// have been accounted for and can stop replaying them.
    pub seq: u32,
    /// The level-triggered half. Newest wins outright.
    pub held: H,
    /// The edge-triggered half. Every one must be applied exactly once.
    pub commands: Vec<C>,
}

impl<H: Default, C> Default for InputFrame<H, C> {
    fn default() -> (f: Self)
        ensures
            f.seq == 0,
            f.commands@ == Seq::<C>::empty(),
            call_ensures(H::default, (), f.held),
    {
        InputFrame { seq: 0, held: H::default(), commands: Vec::new() }
    }
}

/// What one player has pending, after reconciling however many frames arrived
/// since the last drain.
#[derive(Clone, Debug)]
pub struct Pending<H, C> {
    /// Highest `seq` seen. What belongs in the next snapshot's ack.
    pub seq: u32,
    /// Held state from the highest-`seq` frame seen.
    pub held: H,
    /// Every command from every frame, oldest first.
    pub commands: Vec<C>,
    /// Commands discarded because the cap was reached.
    ///
    /// Non-zero means a client is sending faster than the server can consume,
    /// which is worth surfacing rather than swallowing.
    pub dropped: u32,
}

#[verifier::ext_equal]
pub struct PendingView<H, C> {
    pub seq: u32,
    pub held: H,
    pub commands: Seq<C>,
    pub dropped: u32,
}

impl<H, C> View for Pending<H, C> {
    type V = PendingView<H, C>;

    open spec fn view(&self) -> PendingView<H, C> {
        PendingView {
            seq: self.seq,
            held: self.held,
            commands: self.commands@,
            dropped: self.dropped,
        }
    }
}

/// The newest of some commands, `cap` at most.
pub open spec fn newest<C>(commands: Seq<C>, cap: nat) -> Seq<C> {
    if commands.len() <= cap {
        commands
    } else {
        commands.skip(commands.len() - cap)
    }
}

/// A count that stops at the largest number it can show.
pub open spec fn counted(n: int) -> u32 {
    if n > u32::MAX {
        u32::MAX
    } else {
        n as u32
    }
}

/// What a player has pending after a frame.
///
/// Datagrams are neither ordered nor redelivered, so frames from one player
/// can land backwards and several can land between two drains:
///
/// - **Held state** takes the highest `seq`, a repeated one included. An older
///   frame describes a keyboard that has already changed.
/// - **Commands accumulate**, from every frame, in arrival order — *including*
///   frames that arrive late. A command is something the player did; arriving
///   out of order makes it old, not imaginary. Past the cap the oldest go, and
///   are counted: the newest command is the one the player just pressed and is
///   watching for.
pub open spec fn folded<H, C>(
    before: Option<PendingView<H, C>>,
    frame: InputFrame<H, C>,
    cap: nat,
) -> PendingView<H, C> {
    let earlier = match before {
        Some(p) => p.commands,
        None => Seq::empty(),
    };
    let lost = match before {
        Some(p) => p.dropped,
        None => 0,
    };
    let all = earlier + frame.commands@;
    let fresh = before is None || frame.seq >= before->0.seq;
    PendingView {
        seq: if fresh {
            frame.seq
        } else {
            before->0.seq
        },
        held: if fresh {
            frame.held
        } else {
            before->0.held
        },
        commands: newest(all, cap),
        dropped: counted(lost + all.len() - newest(all, cap).len()),
    }
}

/// Per-player input, reconciled as frames arrive.
///
/// Held by the network layer, drained once per simulation tick.
#[derive(Debug)]
pub struct InputQueue<H, C> {
    pending: SortedMap<u32, Pending<H, C>>,
    cap: usize,
}

#[verifier::ext_equal]
pub struct QueueView<H, C> {
    /// What each player has pending.
    pub pending: Map<u32, PendingView<H, C>>,
    /// How many commands are held per player.
    pub cap: nat,
}

impl<H, C> View for InputQueue<H, C> {
    type V = QueueView<H, C>;

    closed spec fn view(&self) -> QueueView<H, C> {
        QueueView {
            pending: self.pending@.map_values(|p: Pending<H, C>| p@),
            cap: self.cap as nat,
        }
    }
}

impl<H, C> Default for InputQueue<H, C> {
    fn default() -> (q: Self)
        ensures
            q.wf(),
            q@.pending == Map::<u32, PendingView<H, C>>::empty(),
            q@.cap == MAX_PENDING_COMMANDS,
    {
        InputQueue::new()
    }
}

impl<H, C> InputQueue<H, C> {
    /// No player has more commands pending than the cap.
    pub closed spec fn wf(&self) -> bool {
        &&& self.pending.wf()
        &&& forall|who: u32| #[trigger]
            self.pending@.contains_key(who) ==> self.pending@[who].commands@.len() <= self.cap
    }

    /// An empty queue with the default cap.
    pub fn new() -> (q: Self)
        ensures
            q.wf(),
            q@.pending == Map::<u32, PendingView<H, C>>::empty(),
            q@.cap == MAX_PENDING_COMMANDS,
    {
        InputQueue::with_cap(MAX_PENDING_COMMANDS)
    }

    /// A queue with a non-default per-player command cap.
    ///
    /// Zero is legal and means "held state only": every command is dropped and
    /// counted.
    pub fn with_cap(cap: usize) -> (q: Self)
        ensures
            q.wf(),
            q@.pending == Map::<u32, PendingView<H, C>>::empty(),
            q@.cap == cap,
    {
        let q = InputQueue { pending: SortedMap::new(), cap };
        q
    }

    /// Fold one arriving frame into what `who` has pending.
    ///
    /// Safe to call for every datagram; the simulation calls
    /// [`drain`](Self::drain) once a tick.
    pub fn accept(&mut self, who: PlayerId, frame: InputFrame<H, C>)
        requires
            old(self).wf(),
        ensures
            final(self).wf(),
            final(self)@.cap == old(self)@.cap,
            final(self)@.pending == old(self)@.pending.insert(
                who,
                folded(
                    if old(self)@.pending.contains_key(who) {
                        Some(old(self)@.pending[who])
                    } else {
                        None
                    },
                    frame,
                    old(self)@.cap,
                ),
            ),
    {
        let ghost given = frame;
        let slot = self.pending.remove(&who);
        let ghost prior = slot;
        let InputFrame { seq, held, commands: mut arrived } = frame;
        let mut p = match slot {
            Some(p) => {
                if seq >= p.seq {
                    Pending { seq, held, commands: p.commands, dropped: p.dropped }
                } else {
                    p
                }
            },
            None => Pending { seq, held, commands: Vec::new(), dropped: 0 },
        };
        let ghost all = p.commands@ + given.commands@;
        let room: usize = self.cap - p.commands.len();
        let mut lost: usize = 0;
        if arrived.len() > room {
            lost = arrived.len() - room;
        }
        if lost <= p.commands.len() {
            let mut kept = p.commands.split_off(lost);
            kept.append(&mut arrived);
            p.commands = kept;
            assert(p.commands@ =~= newest(all, self.cap as nat));
        } else {
            let from: usize = lost - p.commands.len();
            p.commands = arrived.split_off(from);
            assert(p.commands@ =~= newest(all, self.cap as nat));
        }
        if lost as u64 > (u32::MAX - p.dropped) as u64 {
            p.dropped = u32::MAX;
        } else {
            p.dropped = p.dropped + lost as u32;
        }
        proof {
            let earlier = match prior {
                Some(q) => Some(q@),
                None => None,
            };
        }
        self.pending.insert(who, p);
    }

    /// Take everything pending, leaving the queue empty. Players come in the
    /// order of their ids.
    ///
    /// Called once per simulation tick. Held state does not persist across a
    /// drain: a client that stops sending has stopped holding keys, and
    /// continuing to apply its last direction would walk a disconnected player
    /// into a wall forever.
    pub fn drain(&mut self) -> (all: Vec<(PlayerId, Pending<H, C>)>)
        requires
            old(self).wf(),
        ensures
            final(self).wf(),
            final(self)@.pending == Map::<u32, PendingView<H, C>>::empty(),
            final(self)@.cap == old(self)@.cap,
            forall|i: int, j: int|
                0 <= i < j < all@.len() ==> (#[trigger] all@[i]).0 < (#[trigger] all@[j]).0,
            forall|i: int|
                0 <= i < all@.len() ==> old(self)@.pending.contains_key((#[trigger] all@[i]).0)
                    && all@[i].1@ == old(self)@.pending[all@[i].0],
            forall|who: u32| #[trigger]
                old(self)@.pending.contains_key(who) ==> exists|i: int|
                    0 <= i < all@.len() && (#[trigger] all@[i]).0 == who,
    {
        let ghost before = *self;
        proof {
            before.pending.lemma_pairs();
        }
        let all = self.pending.drain();
        proof {
            assert forall|who: u32| #[trigger] before@.pending.contains_key(who) implies exists|
                i: int,
            | 0 <= i < all@.len() && (#[trigger] all@[i]).0 == who by {
                let i = choose|i: int|
                    0 <= i < before.pending.pairs().len() && #[trigger] before.pending.pairs()[i].0@
                        == who;
            }
        }
        all
    }

    /// Highest `seq` seen from `who`, for the ack the next snapshot carries.
    /// Readable without draining.
    pub fn ack_seq(&self, who: PlayerId) -> (seq: u32)
        requires
            self.wf(),
        ensures
            seq == if self@.pending.contains_key(who) {
                self@.pending[who].seq
            } else {
                0
            },
    {
        match self.pending.get(&who) {
            Some(p) => p.seq,
            None => 0,
        }
    }

    /// Players with anything pending.
    pub fn len(&self) -> (n: usize)
        requires
            self.wf(),
        ensures
            n == self@.pending.dom().len(),
    {
        proof {
            self.pending.lemma_len();
            assert(self@.pending.dom() =~= self.pending@.dom());
        }
        self.pending.len()
    }

    /// Whether nobody has anything pending.
    pub fn is_empty(&self) -> (r: bool)
        requires
            self.wf(),
        ensures
            r == (self@.pending == Map::<u32, PendingView<H, C>>::empty()),
    {
        proof {
            self.pending.lemma_len();
            assert(self@.pending.dom() =~= self.pending@.dom());
            if self.pending.pairs().len() == 0 {
                assert(self@.pending =~= Map::<u32, PendingView<H, C>>::empty());
            } else {
                self.pending.lemma_pairs();
            }
        }
        self.pending.len() == 0
    }

    /// Forget a player entirely, on disconnect.
    ///
    /// Without this a queue keeps a slot per player who ever connected, which
    /// on a long-lived server is a slow leak keyed by a number that never
    /// repeats.
    pub fn remove(&mut self, who: PlayerId)
        requires
            old(self).wf(),
        ensures
            final(self).wf(),
            final(self)@.cap == old(self)@.cap,
            final(self)@.pending == old(self)@.pending.remove(who),
    {
        let _ = self.pending.remove(&who);
    }
}

// ---------------------------------------------------------------------------
// Laws.
// ---------------------------------------------------------------------------

/// Below the cap no command is ever lost: a frame adds its own commands behind
/// those of every earlier frame, whether it is newer or late.
pub proof fn law_commands_from_every_frame_survive<H, C>(
    before: PendingView<H, C>,
    frame: InputFrame<H, C>,
    cap: nat,
)
    requires
        before.commands.len() + frame.commands@.len() <= cap,
    ensures
        folded(Some(before), frame, cap).commands == before.commands + frame.commands@,
        folded(Some(before), frame, cap).dropped == before.dropped,
{
}

/// Held state never goes backwards: a late frame changes neither it nor the
/// ack.
pub proof fn law_a_late_frame_does_not_win<H, C>(
    before: PendingView<H, C>,
    frame: InputFrame<H, C>,
    cap: nat,
)
    requires
        frame.seq < before.seq,
    ensures
        folded(Some(before), frame, cap).held == before.held,
        folded(Some(before), frame, cap).seq == before.seq,
{
}

/// For held state the order of two frames with different numbers does not
/// matter.
pub proof fn law_held_state_ignores_arrival_order<H, C>(
    before: Option<PendingView<H, C>>,
    a: InputFrame<H, C>,
    b: InputFrame<H, C>,
    cap: nat,
)
    requires
        a.seq != b.seq,
    ensures
        ({
            let ab = folded(Some(folded(before, a, cap)), b, cap);
            let ba = folded(Some(folded(before, b, cap)), a, cap);
            ab.held == ba.held && ab.seq == ba.seq
        }),
{
}

/// A flood is capped, and what is shed is the oldest: the newest command
/// always survives a cap that is not zero.
pub proof fn law_a_flood_is_capped<H, C>(
    before: Option<PendingView<H, C>>,
    frame: InputFrame<H, C>,
    cap: nat,
)
    ensures
        folded(before, frame, cap).commands.len() <= cap,
        cap > 0 && frame.commands@.len() > 0 ==> folded(before, frame, cap).commands.last()
            == frame.commands@.last(),
{
}

/// A duplicate datagram leaves held state and ack as they are.
pub proof fn law_a_repeat_is_harmless<H, C>(
    before: Option<PendingView<H, C>>,
    frame: InputFrame<H, C>,
    cap: nat,
)
    ensures
        ({
            let once = folded(before, frame, cap);
            let twice = folded(Some(once), frame, cap);
            twice.held == once.held && twice.seq == once.seq
        }),
{
}

/// Two players never displace each other.
pub proof fn law_players_are_kept_apart<H, C>(
    q: Map<u32, PendingView<H, C>>,
    who: u32,
    other: u32,
    p: PendingView<H, C>,
)
    requires
        who != other,
    ensures
        q.insert(who, p).contains_key(other) == q.contains_key(other),
        q.contains_key(other) ==> q.insert(who, p)[other] == q[other],
{
}

/// The first frame since a drain is taken as it is.
pub proof fn law_a_first_frame_is_taken_whole<H, C>(frame: InputFrame<H, C>, cap: nat)
    ensures
        folded(None::<PendingView<H, C>>, frame, cap).seq == frame.seq,
        folded(None::<PendingView<H, C>>, frame, cap).held == frame.held,
        frame.commands@.len() <= cap ==> folded(None::<PendingView<H, C>>, frame, cap).commands
            == frame.commands@ && folded(None::<PendingView<H, C>>, frame, cap).dropped == 0,
{
    assert(Seq::<C>::empty() + frame.commands@ =~= frame.commands@);
}

/// A frame that is not late replaces held state and ack outright.
pub proof fn law_the_newest_frame_wins<H, C>(
    before: PendingView<H, C>,
    frame: InputFrame<H, C>,
    cap: nat,
)
    requires
        frame.seq >= before.seq,
    ensures
        folded(Some(before), frame, cap).held == frame.held,
        folded(Some(before), frame, cap).seq == frame.seq,
{
}

/// What is kept of the commands is an unbroken run of the newest, as long as
/// the cap allows, and what is not kept is counted: the count grows by exactly
/// as many as are missing, and stops at the largest number it can show.
pub proof fn law_commands_are_kept_or_counted<H, C>(
    before: PendingView<H, C>,
    frame: InputFrame<H, C>,
    cap: nat,
    i: int,
)
    ensures
        ({
            let after = folded(Some(before), frame, cap);
            let all = before.commands + frame.commands@;
            let lost = all.len() - after.commands.len();
            &&& lost >= 0
            &&& all.len() <= cap <==> lost == 0
            &&& lost > 0 ==> after.commands.len() == cap
            &&& 0 <= i < after.commands.len() ==> after.commands[i] == all[lost + i]
            &&& before.dropped + lost <= u32::MAX ==> after.dropped == before.dropped + lost
            &&& before.dropped + lost > u32::MAX ==> after.dropped == u32::MAX
        }),
{
}

/// The ack is the highest number pending from the player, and zero where
/// nothing is; the count is that of the players who have something pending.
pub proof fn law_a_queue_tells_what_is_pending<H, C>(
    q: &InputQueue<H, C>,
    who: PlayerId,
    seq: u32,
    n: usize,
    empty: bool,
)
    requires
        q.wf(),
        call_ensures(InputQueue::<H, C>::ack_seq, (q, who), seq),
        call_ensures(InputQueue::<H, C>::len, (q,), n),
        call_ensures(InputQueue::<H, C>::is_empty, (q,), empty),
    ensures
        q@.pending.contains_key(who) ==> seq == q@.pending[who].seq,
        !q@.pending.contains_key(who) ==> seq == 0,
        n == q@.pending.dom().len(),
        q@.pending.contains_key(who) ==> !empty,
        empty ==> seq == 0 && n == 0,
{
}

/// What accepting a frame does to its player: held state and ack are those of
/// the frame with the highest number, and the commands of all frames are there,
/// in the order they came, the newest as far as the cap allows and the rest
/// counted. No other player is touched.
pub proof fn law_what_accepting_a_frame_does<H, C>(
    who: PlayerId,
    frame: InputFrame<H, C>,
    other: u32,
)
    requires
        other != who,
    ensures
        forall|q: &mut InputQueue<H, C>|
            q.wf() && #[trigger] call_ensures(InputQueue::<H, C>::accept, (q, who, frame), ()) ==> {
                let (before, after) = (q@.pending, (*final(q))@.pending);
                let cap = q@.cap;
                let p = after[who];
                let had = before.contains_key(who);
                let earlier = if had {
                    before[who].commands
                } else {
                    Seq::empty()
                };
                let all = earlier + frame.commands@;
                &&& after.contains_key(who)
                &&& !had || frame.seq >= before[who].seq ==> p.seq == frame.seq && p.held
                    == frame.held
                &&& had && frame.seq < before[who].seq ==> p.seq == before[who].seq && p.held
                    == before[who].held
                &&& all.len() <= cap ==> p.commands == all
                &&& all.len() > cap ==> p.commands == all.skip(all.len() - cap)
                &&& had && before[who].dropped + all.len() - p.commands.len() <= u32::MAX
                    ==> p.dropped == before[who].dropped + all.len() - p.commands.len()
                &&& !had && all.len() - p.commands.len() <= u32::MAX ==> p.dropped == all.len()
                    - p.commands.len()
                &&& after.contains_key(other) <==> before.contains_key(other)
                &&& before.contains_key(other) ==> after[other] == before[other]
                &&& (*final(q))@.cap == cap
            },
{
}

/// What draining does: every player's input comes out once, in the order of
/// their ids, and nothing is left; what removing a player does: that player's
/// input goes, and no other's.
pub proof fn law_what_draining_and_removing_do<H, C>(
    all: Vec<(PlayerId, Pending<H, C>)>,
    who: PlayerId,
    other: u32,
)
    ensures
        forall|q: &mut InputQueue<H, C>|
            q.wf() && #[trigger] call_ensures(InputQueue::<H, C>::drain, (q,), all) ==> {
                &&& (*final(q))@.pending.dom().len() == 0 && (*final(q))@.cap == q@.cap
                &&& forall|i: int, j: int|
                    0 <= i < j < all@.len() ==> (#[trigger] all@[i]).0 < (#[trigger] all@[j]).0
                &&& q@.pending.contains_key(who) <==> exists|i: int|
                    0 <= i < all@.len() && (#[trigger] all@[i]).0 == who && all@[i].1@
                        == q@.pending[who]
            },
        forall|q: &mut InputQueue<H, C>|
            q.wf() && #[trigger] call_ensures(InputQueue::<H, C>::remove, (q, who), ()) ==> {
                let (before, after) = (q@.pending, (*final(q))@.pending);
                &&& !after.contains_key(who)
                &&& other != who ==> (after.contains_key(other) <==> before.contains_key(other))
                &&& other != who && before.contains_key(other) ==> after[other] == before[other]
            },
{
}

/// A queue begins with nobody's input; it holds as many commands for each player
/// as it is told, or thirty-two.
pub proof fn law_a_queue_begins_empty<H, C>(
    cap: usize,
    capped: InputQueue<H, C>,
    usual: InputQueue<H, C>,
    who: u32,
)
    requires
        call_ensures(InputQueue::<H, C>::with_cap, (cap,), capped),
        call_ensures(InputQueue::<H, C>::new, (), usual),
    ensures
        capped@.cap == cap && usual@.cap == 32,
        !capped@.pending.contains_key(who) && !usual@.pending.contains_key(who),
{
}

} // verus!
