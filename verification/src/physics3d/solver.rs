//! The bookkeeping of a sequential-impulse contact solver: waking, warm
//! starting, and which contact is worked on when.
//!
//! A contact names two bodies by their indices. Impulses are remembered from
//! tick to tick by contact pair: a pair's points are rebuilt from scratch every
//! tick, so there is no stable point identity, but the pair `(a, b)` is stable.
//! Lookups go pair-first, then to the nearest point of that pair's list.

use crate::physics3d::body::{BodyKind, BodyState};
use crate::sorted_map::SortedMap;
use vstd::prelude::*;

verus! {

/// Solver passes per step.
pub const SOLVER_ITERATIONS: usize = 4;

/// Whether a contact names two different bodies that exist.
pub open spec fn is_resolvable(a: usize, b: usize, bodies: nat) -> bool {
    a != b && a < bodies && b < bodies
}

/// Whether a contact names two different bodies that exist. One that does not
/// is skipped by every pass.
pub fn resolvable(a: usize, b: usize, bodies: usize) -> (r: bool)
    ensures
        r == is_resolvable(a, b, bodies as nat),
{
    a != b && a < bodies && b < bodies
}

// ---------------------------------------------------------------------------
// Waking.
// ---------------------------------------------------------------------------

/// Whether a body is awake and actually in motion.
pub open spec fn disturbs(bs: Seq<BodyState>, other: usize) -> bool {
    other < bs.len() && !bs[other as int].sleeping && !bs[other as int].still
}

/// The bodies after `other` touched `i`: a sleeper is woken by a partner that
/// is in motion.
pub open spec fn touched(bs: Seq<BodyState>, i: usize, other: usize) -> Seq<BodyState> {
    if disturbs(bs, other) && i < bs.len() && bs[i as int].kind == BodyKind::Dynamic {
        bs.update(i as int, BodyState { sleeping: false, ..bs[i as int] })
    } else {
        bs
    }
}

/// The bodies after the contacts were gone through, each both ways.
pub open spec fn woken(bs: Seq<BodyState>, contacts: Seq<(usize, usize)>) -> Seq<BodyState>
    decreases contacts.len(),
{
    if contacts.len() == 0 {
        bs
    } else {
        let before = woken(bs, contacts.drop_last());
        let (a, b) = contacts.last();
        touched(touched(before, a, b), b, a)
    }
}

fn touch(bodies: &mut Vec<BodyState>, i: usize, other: usize)
    ensures
        final(bodies)@ == touched(old(bodies)@, i, other),
{
    if other >= bodies.len() || bodies[other].sleeping || bodies[other].still {
        return;
    }
    if i < bodies.len() {
        let mut b: BodyState = bodies[i];
        if b.kind.is_dynamic() {
            if b.sleeping {
                b.wake();
            }
            bodies.set(i, b);
        }
    }
}

/// Wake the sleepers that something in motion touches.
///
/// Waking on contact alone would mean that nothing can ever stay asleep: a
/// crate resting on the floor is in a contact every single tick. The partner
/// must be awake *and* actually in motion. A static floor is never in motion,
/// and two settled crates leaning together do not keep each other up.
pub fn wake_pass(bodies: &mut Vec<BodyState>, contacts: &[(usize, usize)])
    ensures
        final(bodies)@ == woken(old(bodies)@, contacts@),
{
    let ghost before = bodies@;
    let mut i: usize = 0;
    while i < contacts.len()
        invariant
            i <= contacts@.len(),
            bodies@ == woken(before, contacts@.take(i as int)),
        decreases contacts@.len() - i,
    {
        proof {
            assert(contacts@.take(i + 1).drop_last() =~= contacts@.take(i as int));
        }
        let (a, b) = contacts[i];
        touch(bodies, a, b);
        touch(bodies, b, a);
        i = i + 1;
    }
    assert(contacts@.take(i as int) =~= contacts@);
}

// ---------------------------------------------------------------------------
// Warm starting.
// ---------------------------------------------------------------------------

/// Contact points remembered from the previous tick, by contact pair. `P` is
/// what is remembered of one point.
#[derive(Clone, Debug)]
pub struct ContactCache<P> {
    pairs: SortedMap<(usize, usize), Vec<P>>,
}

impl<P> View for ContactCache<P> {
    type V = Map<(usize, usize), Seq<P>>;

    closed spec fn view(&self) -> Map<(usize, usize), Seq<P>> {
        self.pairs@.map_values(|l: Vec<P>| l@)
    }
}

/// How many points some lists hold together.
pub open spec fn points_in<P>(lists: Seq<((usize, usize), Vec<P>)>) -> nat
    decreases lists.len(),
{
    if lists.len() == 0 {
        0
    } else {
        points_in(lists.drop_last()) + lists.last().1@.len()
    }
}

/// Whether a list's entry `k` is the best match: it has a rank, none has a
/// lower one, and none before it has the same.
pub open spec fn is_best(ranks: Seq<Option<u64>>, k: int) -> bool {
    &&& 0 <= k < ranks.len()
    &&& ranks[k] is Some
    &&& forall|j: int|
        0 <= j < ranks.len() && (#[trigger] ranks[j]) is Some ==> ranks[k]->0 <= ranks[j]->0
    &&& forall|j: int| 0 <= j < k && (#[trigger] ranks[j]) is Some ==> ranks[k]->0 < ranks[j]->0
}

/// These are ranks that the entries of a list were given.
pub open spec fn ranked<P, F: Fn(&P) -> Option<u64>>(
    rank: F,
    list: Seq<P>,
    ranks: Seq<Option<u64>>,
) -> bool {
    &&& ranks.len() == list.len()
    &&& forall|i: int|
        0 <= i < list.len() ==> call_ensures(rank, (&list[i],), #[trigger] ranks[i])
}

/// A list without entry `k`; the last entry takes its place.
pub open spec fn without_entry<P>(list: Seq<P>, k: int) -> Seq<P> {
    list.update(k, list.last()).drop_last()
}

impl<P> Default for ContactCache<P> {
    fn default() -> (c: Self)
        ensures
            c.wf(),
            c@ == Map::<(usize, usize), Seq<P>>::empty(),
            c.points() == 0,
    {
        ContactCache::new()
    }
}

impl<P> ContactCache<P> {
    /// The pairs are in order, so that lookups find what was stored.
    pub closed spec fn wf(&self) -> bool {
        self.pairs.wf()
    }

    /// How many points are remembered.
    pub closed spec fn points(&self) -> nat {
        points_in(self.pairs.pairs())
    }

    /// Nothing remembered.
    pub fn new() -> (c: Self)
        ensures
            c.wf(),
            c@ == Map::<(usize, usize), Seq<P>>::empty(),
            c.points() == 0,
    {
        let c = ContactCache { pairs: SortedMap::new() };
        proof {
            c.pairs.lemma_pairs();
        }
        c
    }

    /// Drop everything remembered. Useful when the caller's body indices are
    /// about to be invalidated (a respawn, a scene reset).
    pub fn clear(&mut self)
        ensures
            final(self).wf(),
            final(self)@ == Map::<(usize, usize), Seq<P>>::empty(),
            final(self).points() == 0,
    {
        let _ = self.pairs.drain();
    }

    /// Total number of remembered contact points, across all pairs.
    pub fn len(&self) -> (n: usize)
        requires
            self.points() <= usize::MAX,
        ensures
            n == self.points(),
    {
        let ghost lists = self.pairs.pairs();
        let mut n: usize = 0;
        let mut i: usize = 0;
        while i < self.pairs.len()
            invariant
                lists == self.pairs.pairs(),
                i <= lists.len(),
                n == points_in(lists.take(i as int)),
                points_in(lists) <= usize::MAX,
            decreases lists.len() - i,
        {
            proof {
                assert(lists.take(i + 1).drop_last() =~= lists.take(i as int));
                lemma_points_grow(lists, i + 1);
            }
            n = n + self.pairs.entry(i).1.len();
            i = i + 1;
        }
        assert(lists.take(i as int) =~= lists);
        n
    }

    /// Whether no contact point is remembered.
    pub fn is_empty(&self) -> (r: bool)
        ensures
            r == (self.points() == 0),
    {
        let ghost lists = self.pairs.pairs();
        let mut i: usize = 0;
        while i < self.pairs.len()
            invariant
                lists == self.pairs.pairs(),
                i <= lists.len(),
                points_in(lists.take(i as int)) == 0,
            decreases lists.len() - i,
        {
            proof {
                assert(lists.take(i + 1).drop_last() =~= lists.take(i as int));
                lemma_points_grow(lists, i + 1);
            }
            if self.pairs.entry(i).1.len() > 0 {
                return false;
            }
            i = i + 1;
        }
        assert(lists.take(i as int) =~= lists);
        true
    }

    /// Take out the remembered point of a pair that matches best.
    ///
    /// `rank` says of a remembered point how far it is, or that it does not
    /// match. The match is consumed: two new contact points must never both
    /// draw on one remembered impulse.
    pub fn take_nearest<F: Fn(&P) -> Option<u64>>(&mut self, a: usize, b: usize, rank: F) -> (r:
        Option<P>)
        requires
            old(self).wf(),
            forall|p: &P| #[trigger] call_requires(rank, (p,)),
        ensures
            final(self).wf(),
            match r {
                None => {
                    &&& final(self)@ == old(self)@
                    &&& old(self)@.contains_key((a, b)) ==> exists|ranks: Seq<Option<u64>>|
                        #[trigger] ranked(rank, old(self)@[(a, b)], ranks) && forall|i: int|
                            0 <= i < ranks.len() ==> (#[trigger] ranks[i]) is None
                },
                Some(p) => {
                    &&& old(self)@.contains_key((a, b))
                    &&& exists|ranks: Seq<Option<u64>>, k: int|
                        #[trigger] ranked(rank, old(self)@[(a, b)], ranks) && #[trigger] is_best(
                            ranks,
                            k,
                        ) && p == old(self)@[(a, b)][k] && final(self)@ == old(self)@.insert(
                            (a, b),
                            without_entry(old(self)@[(a, b)], k),
                        )
                },
            },
    {
        let ghost before = *self;
        let mut list = match self.pairs.remove(&(a, b)) {
            Some(l) => l,
            None => {
                return None;
            },
        };
        let ghost all = list@;
        let ghost mut ranks: Seq<Option<u64>> = Seq::empty();
        let mut best: Option<(usize, u64)> = None;
        let mut i: usize = 0;
        while i < list.len()
            invariant
                i <= list@.len(),
                list@ == all,
                ranks.len() == i,
                forall|p: &P| #[trigger] call_requires(rank, (p,)),
                forall|j: int|
                    0 <= j < i ==> call_ensures(rank, (&all[j],), #[trigger] ranks[j]),
                match best {
                    None => forall|j: int| 0 <= j < i ==> (#[trigger] ranks[j]) is None,
                    Some((k, d)) => is_best(ranks, k as int) && ranks[k as int]->0 == d,
                },
            decreases list@.len() - i,
        {
            let d: Option<u64> = rank(&list[i]);
            proof {
                ranks = ranks.push(d);
            }
            match d {
                Some(rank_here) => {
                    match best {
                        None => {
                            best = Some((i, rank_here));
                        },
                        Some((k, least)) => {
                            if rank_here < least {
                                best = Some((i, rank_here));
                            }
                        },
                    }
                },
                None => {},
            }
            i = i + 1;
            proof {
                assert forall|j: int| 0 <= j < i implies call_ensures(
                    rank,
                    (&all[j],),
                    #[trigger] ranks[j],
                ) by {
                }
            }
        }
        assert(ranked(rank, before@[(a, b)], ranks));
        match best {
            None => {
                self.pairs.insert((a, b), list);
                None
            },
            Some((k, _)) => {
                let p = list.swap_remove(k);
                self.pairs.insert((a, b), list);
                Some(p)
            },
        }
    }

    /// Remember a point of a pair, behind those that are remembered of it.
    pub fn store(&mut self, a: usize, b: usize, point: P)
        requires
            old(self).wf(),
        ensures
            final(self).wf(),
            final(self)@ == old(self)@.insert(
                (a, b),
                if old(self)@.contains_key((a, b)) {
                    old(self)@[(a, b)].push(point)
                } else {
                    seq![point]
                },
            ),
    {
        let mut list = match self.pairs.remove(&(a, b)) {
            Some(l) => l,
            None => Vec::new(),
        };
        list.push(point);
        self.pairs.insert((a, b), list);
    }

    /// Take the whole cache out, leaving an empty one: a tick rebuilds it, so
    /// a pair that is absent this tick simply does not reappear.
    pub fn take(&mut self) -> (all: Self)
        requires
            old(self).wf(),
        ensures
            all.wf(),
            all@ == old(self)@,
            final(self).wf(),
            final(self)@ == Map::<(usize, usize), Seq<P>>::empty(),
    {
        let mut all = ContactCache::new();
        std::mem::swap(&mut all, self);
        all
    }
}

proof fn lemma_points_grow<P>(lists: Seq<((usize, usize), Vec<P>)>, n: int)
    requires
        0 <= n <= lists.len(),
    ensures
        points_in(lists.take(n)) <= points_in(lists),
    decreases lists.len(),
{
    if n == lists.len() {
        assert(lists.take(n) =~= lists);
    } else {
        lemma_points_grow(lists.drop_last(), n);
        assert(lists.drop_last().take(n) =~= lists.take(n));
    }
}

// ---------------------------------------------------------------------------
// The order of work.
// ---------------------------------------------------------------------------

/// What is done with a contact in a pass over the contacts.
#[derive(Copy, Clone, Debug, PartialEq, Eq, Structural)]
pub enum Pass {
    /// Capture the bounce it aims for.
    Prime,
    /// Seed its impulse from the remembered point that matches best.
    Warm,
    /// Apply impulses.
    Solve,
    /// Push the two bodies apart where they overlap.
    Correct,
    /// Remember its impulse for the next tick.
    Store,
}

impl Pass {
    /// Where a pass stands in a solve.
    pub open spec fn rank(self) -> nat {
        match self {
            Pass::Prime => 0,
            Pass::Warm => 1,
            Pass::Solve => 2,
            Pass::Correct => 3,
            Pass::Store => 4,
        }
    }
}

/// One piece of work: a pass, and the contact it comes to.
#[derive(Copy, Clone, Debug, PartialEq, Eq, Structural)]
pub struct Work {
    pub pass: Pass,
    pub contact: usize,
}

/// Whether a pass does anything with a contact: it names two different bodies
/// that exist, and impulses need one of them to be moved by them.
pub open spec fn takes_part(pass: Pass, bs: Seq<BodyState>, contact: (usize, usize)) -> bool {
    let (a, b) = contact;
    &&& is_resolvable(a, b, bs.len())
    &&& pass == Pass::Solve ==> bs[a as int].kind == BodyKind::Dynamic || bs[b as int].kind
        == BodyKind::Dynamic
}

/// The work of a pass over the first `n` contacts, in their order.
pub open spec fn pass_work(
    pass: Pass,
    bs: Seq<BodyState>,
    contacts: Seq<(usize, usize)>,
    n: nat,
) -> Seq<Work>
    decreases n,
{
    if n == 0 {
        Seq::empty()
    } else {
        let before = pass_work(pass, bs, contacts, (n - 1) as nat);
        if takes_part(pass, bs, contacts[n - 1]) {
            before.push(Work { pass, contact: (n - 1) as usize })
        } else {
            before
        }
    }
}

/// The impulse passes, one after the other.
pub open spec fn solve_rounds(
    bs: Seq<BodyState>,
    contacts: Seq<(usize, usize)>,
    rounds: nat,
) -> Seq<Work>
    decreases rounds,
{
    if rounds == 0 {
        Seq::empty()
    } else {
        solve_rounds(bs, contacts, (rounds - 1) as nat) + pass_work(
            Pass::Solve,
            bs,
            contacts,
            contacts.len(),
        )
    }
}

/// The work of a solve.
pub open spec fn solve_work(bs: Seq<BodyState>, contacts: Seq<(usize, usize)>) -> Seq<Work> {
    pass_work(Pass::Prime, bs, contacts, contacts.len()) + pass_work(
        Pass::Warm,
        bs,
        contacts,
        contacts.len(),
    ) + solve_rounds(bs, contacts, SOLVER_ITERATIONS as nat) + pass_work(
        Pass::Correct,
        bs,
        contacts,
        contacts.len(),
    ) + pass_work(Pass::Store, bs, contacts, contacts.len())
}

fn push_pass(
    out: &mut Vec<Work>,
    pass: Pass,
    bodies: &[BodyState],
    contacts: &[(usize, usize)],
)
    ensures
        final(out)@ == old(out)@ + pass_work(pass, bodies@, contacts@, contacts@.len()),
{
    let ghost before = out@;
    let mut i: usize = 0;
    while i < contacts.len()
        invariant
            i <= contacts@.len(),
            out@ == before + pass_work(pass, bodies@, contacts@, i as nat),
        decreases contacts@.len() - i,
    {
        let (a, b) = contacts[i];
        if resolvable(a, b, bodies.len()) {
            let moves = bodies[a].kind.is_dynamic() || bodies[b].kind.is_dynamic();
            if !matches!(pass, Pass::Solve) || moves {
                out.push(Work { pass, contact: i });
            }
        }
        i = i + 1;
    }
}

/// What a solve does with which contact, in order.
///
/// Every bounce target is captured before any impulse is applied, remembered
/// impulses included; positions are corrected after the impulses, so that the
/// correction works on the state they left; and what is remembered is what
/// the last of them came to.
pub fn solve_plan(bodies: &[BodyState], contacts: &[(usize, usize)]) -> (plan: Vec<Work>)
    ensures
        plan@ == solve_work(bodies@, contacts@),
{
    let mut plan: Vec<Work> = Vec::new();
    push_pass(&mut plan, Pass::Prime, bodies, contacts);
    push_pass(&mut plan, Pass::Warm, bodies, contacts);
    let ghost seeded = plan@;
    let mut round: usize = 0;
    while round < SOLVER_ITERATIONS
        invariant
            round <= SOLVER_ITERATIONS,
            plan@ == seeded + solve_rounds(bodies@, contacts@, round as nat),
        decreases SOLVER_ITERATIONS - round,
    {
        push_pass(&mut plan, Pass::Solve, bodies, contacts);
        round = round + 1;
    }
    push_pass(&mut plan, Pass::Correct, bodies, contacts);
    push_pass(&mut plan, Pass::Store, bodies, contacts);
    plan
}

proof fn lemma_pass(pass: Pass, bs: Seq<BodyState>, contacts: Seq<(usize, usize)>, n: nat)
    requires
        n <= contacts.len(),
    ensures
        forall|i: int|
            0 <= i < pass_work(pass, bs, contacts, n).len() ==> {
                let w = #[trigger] pass_work(pass, bs, contacts, n)[i];
                &&& w.pass == pass
                &&& contacts.len() <= usize::MAX ==> w.contact < n && takes_part(
                    pass,
                    bs,
                    contacts[w.contact as int],
                )
            },
        forall|k: usize|
            #![trigger contacts[k as int]]
            k < n && takes_part(pass, bs, contacts[k as int]) ==> pass_work(
                pass,
                bs,
                contacts,
                n,
            ).contains(Work { pass, contact: k }),
    decreases n,
{
    if n > 0 {
        let front = pass_work(pass, bs, contacts, (n - 1) as nat);
        let all = pass_work(pass, bs, contacts, n);
        lemma_pass(pass, bs, contacts, (n - 1) as nat);
        assert forall|k: usize|
            #![trigger contacts[k as int]]
            k < n && takes_part(pass, bs, contacts[k as int]) implies all.contains(
            Work { pass, contact: k },
        ) by {
            let w = Work { pass, contact: k };
            if k == n - 1 {
                assert(all.last() == w);
            } else {
                let i = front.index_of(w);
                assert(all[i] == w);
            }
        }
    }
}

proof fn lemma_rounds(bs: Seq<BodyState>, contacts: Seq<(usize, usize)>, rounds: nat)
    ensures
        forall|i: int|
            0 <= i < solve_rounds(bs, contacts, rounds).len() ==> {
                let w = #[trigger] solve_rounds(bs, contacts, rounds)[i];
                &&& w.pass == Pass::Solve
                &&& contacts.len() <= usize::MAX ==> w.contact < contacts.len() && takes_part(
                    Pass::Solve,
                    bs,
                    contacts[w.contact as int],
                )
            },
    decreases rounds,
{
    if rounds > 0 {
        lemma_rounds(bs, contacts, (rounds - 1) as nat);
        lemma_pass(Pass::Solve, bs, contacts, contacts.len());
    }
}

// ---------------------------------------------------------------------------
// Laws.
// ---------------------------------------------------------------------------

/// Contacts only ever wake: no body falls asleep by them, and nothing else
/// about a body changes.
pub proof fn law_contacts_only_wake(bs: Seq<BodyState>, contacts: Seq<(usize, usize)>)
    ensures
        woken(bs, contacts).len() == bs.len(),
        forall|i: int|
            0 <= i < bs.len() ==> {
                &&& (#[trigger] woken(bs, contacts)[i]).kind == bs[i].kind
                &&& woken(bs, contacts)[i].still == bs[i].still
                &&& woken(bs, contacts)[i].sleeping ==> bs[i].sleeping
                &&& bs[i].kind != BodyKind::Dynamic ==> woken(bs, contacts)[i] == bs[i]
            },
    decreases contacts.len(),
{
    if contacts.len() > 0 {
        law_contacts_only_wake(bs, contacts.drop_last());
    }
}

/// A settled scene stays asleep: where nothing that is awake is in motion, no
/// contact wakes anything.
pub proof fn law_a_settled_scene_stays_asleep(bs: Seq<BodyState>, contacts: Seq<(usize, usize)>)
    requires
        forall|i: int|
            0 <= i < bs.len() ==> (#[trigger] bs[i]).sleeping || bs[i].still,
    ensures
        woken(bs, contacts) == bs,
    decreases contacts.len(),
{
    if contacts.len() > 0 {
        law_a_settled_scene_stays_asleep(bs, contacts.drop_last());
    }
}

/// Something in motion wakes what it touches, whichever of the two a contact
/// names first.
pub proof fn law_motion_wakes_what_it_touches(
    bs: Seq<BodyState>,
    contacts: Seq<(usize, usize)>,
    k: int,
    sleeper: usize,
    mover: usize,
)
    requires
        0 <= k < contacts.len(),
        contacts[k] == (sleeper, mover) || contacts[k] == (mover, sleeper),
        sleeper < bs.len(),
        bs[sleeper as int].kind == BodyKind::Dynamic,
        disturbs(bs, mover),
    ensures
        !woken(bs, contacts)[sleeper as int].sleeping,
    decreases contacts.len(),
{
    let front = contacts.drop_last();
    law_contacts_only_wake(bs, front);
    law_contacts_only_wake(bs, contacts);
    if k < front.len() {
        law_motion_wakes_what_it_touches(bs, front, k, sleeper, mover);
    }
}

/// A remembered point is handed out once: what was taken is no longer there.
pub proof fn law_a_match_is_consumed<P>(list: Seq<P>, k: int)
    requires
        0 <= k < list.len(),
    ensures
        without_entry(list, k).to_multiset() == list.to_multiset().remove(list[k]),
        without_entry(list, k).len() == list.len() - 1,
{
    broadcast use vstd::seq_lib::group_to_multiset_ensures;

    let last = list.last();
    let front = list.drop_last();
    assert(list =~= front.push(last));
    if k == list.len() - 1 {
        assert(without_entry(list, k) =~= front);
    } else {
        assert(without_entry(list, k) =~= front.update(k, last));
        vstd::seq_lib::to_multiset_update(front, k, last);
    }
}

/// The passes of a solve come in order: every bounce target is captured before
/// any impulse is applied, no overlap is corrected before the last impulse,
/// and nothing is remembered before that.
pub proof fn law_passes_come_in_order(
    bs: Seq<BodyState>,
    contacts: Seq<(usize, usize)>,
    i: int,
    j: int,
)
    requires
        0 <= i < j < solve_work(bs, contacts).len(),
    ensures
        solve_work(bs, contacts)[i].pass.rank() <= solve_work(bs, contacts)[j].pass.rank(),
{
    lemma_pass(Pass::Prime, bs, contacts, contacts.len());
    lemma_pass(Pass::Warm, bs, contacts, contacts.len());
    lemma_rounds(bs, contacts, SOLVER_ITERATIONS as nat);
    lemma_pass(Pass::Correct, bs, contacts, contacts.len());
    lemma_pass(Pass::Store, bs, contacts, contacts.len());
}

/// A malformed contact is ignored by every pass: no work ever names one.
pub proof fn law_malformed_contacts_are_ignored(
    bs: Seq<BodyState>,
    contacts: Seq<(usize, usize)>,
    i: int,
)
    requires
        contacts.len() <= usize::MAX,
        0 <= i < solve_work(bs, contacts).len(),
    ensures
        ({
            let w = solve_work(bs, contacts)[i];
            w.contact < contacts.len() && takes_part(w.pass, bs, contacts[w.contact as int])
        }),
{
    lemma_pass(Pass::Prime, bs, contacts, contacts.len());
    lemma_pass(Pass::Warm, bs, contacts, contacts.len());
    lemma_rounds(bs, contacts, SOLVER_ITERATIONS as nat);
    lemma_pass(Pass::Correct, bs, contacts, contacts.len());
    lemma_pass(Pass::Store, bs, contacts, contacts.len());
}

/// No contact that takes part in a pass is left out of it.
pub proof fn law_no_contact_is_left_out(
    pass: Pass,
    bs: Seq<BodyState>,
    contacts: Seq<(usize, usize)>,
    k: usize,
)
    requires
        k < contacts.len(),
        takes_part(pass, bs, contacts[k as int]),
    ensures
        solve_work(bs, contacts).contains(Work { pass, contact: k }),
{
    let n = contacts.len();
    let w = Work { pass, contact: k };
    let part = pass_work(pass, bs, contacts, n);
    lemma_pass(pass, bs, contacts, n);
    let i = part.index_of(w);
    let prime = pass_work(Pass::Prime, bs, contacts, n);
    let warm = pass_work(Pass::Warm, bs, contacts, n);
    let rounds = solve_rounds(bs, contacts, SOLVER_ITERATIONS as nat);
    let correct = pass_work(Pass::Correct, bs, contacts, n);
    let earlier = solve_rounds(bs, contacts, (SOLVER_ITERATIONS - 1) as nat);
    let all = solve_work(bs, contacts);
    let at = match pass {
        Pass::Prime => i,
        Pass::Warm => prime.len() + i,
        Pass::Solve => prime.len() + warm.len() + earlier.len() + i,
        Pass::Correct => prime.len() + warm.len() + rounds.len() + i,
        Pass::Store => prime.len() + warm.len() + rounds.len() + correct.len() + i,
    };
    assert(all[at] == w);
}

proof fn lemma_pass_count(
    pass: Pass,
    bs: Seq<BodyState>,
    contacts: Seq<(usize, usize)>,
    n: nat,
    w: Work,
)
    requires
        n <= contacts.len() <= usize::MAX,
    ensures
        pass_work(pass, bs, contacts, n).to_multiset().count(w) == if w.pass == pass && w.contact
            < n && takes_part(pass, bs, contacts[w.contact as int]) {
            1nat
        } else {
            0nat
        },
    decreases n,
{
    broadcast use vstd::seq_lib::group_to_multiset_ensures;

    if n > 0 {
        lemma_pass_count(pass, bs, contacts, (n - 1) as nat, w);
        let front = pass_work(pass, bs, contacts, (n - 1) as nat);
        let last = Work { pass, contact: (n - 1) as usize };
        if takes_part(pass, bs, contacts[n - 1]) {
            assert(front.push(last).to_multiset() =~= front.to_multiset().insert(last));
        }
    }
}

proof fn lemma_rounds_count(
    bs: Seq<BodyState>,
    contacts: Seq<(usize, usize)>,
    rounds: nat,
    w: Work,
)
    requires
        contacts.len() <= usize::MAX,
    ensures
        solve_rounds(bs, contacts, rounds).to_multiset().count(w) == if w.pass == Pass::Solve
            && w.contact < contacts.len() && takes_part(
            Pass::Solve,
            bs,
            contacts[w.contact as int],
        ) {
            rounds
        } else {
            0nat
        },
    decreases rounds,
{
    broadcast use vstd::seq_lib::group_to_multiset_ensures;

    if rounds > 0 {
        let earlier = solve_rounds(bs, contacts, (rounds - 1) as nat);
        let round = pass_work(Pass::Solve, bs, contacts, contacts.len());
        lemma_rounds_count(bs, contacts, (rounds - 1) as nat, w);
        lemma_pass_count(Pass::Solve, bs, contacts, contacts.len(), w);
        vstd::seq_lib::lemma_multiset_commutative(earlier, round);
    }
}

/// What a solve does with a contact follows from the two bodies it names. Where
/// they are two different bodies that exist, its bounce is captured, its impulse
/// seeded, its overlap corrected and its impulse remembered once each, and
/// impulses are applied in every round as long as one of the two is dynamic,
/// whatever the other is. Where neither is, none is applied; and a contact of
/// anything else gets no work at all.
pub proof fn law_a_contact_gets_the_work_of_its_bodies(
    bodies: &[BodyState],
    contacts: &[(usize, usize)],
    plan: Vec<Work>,
    k: usize,
)
    requires
        contacts@.len() <= usize::MAX,
        k < contacts@.len(),
        call_ensures(solve_plan, (bodies, contacts), plan),
    ensures
        ({
            let (a, b) = contacts@[k as int];
            let times = |pass: Pass| plan@.to_multiset().count(Work { pass, contact: k });
            if a != b && a < bodies@.len() && b < bodies@.len() {
                &&& times(Pass::Prime) == 1 && times(Pass::Warm) == 1
                &&& times(Pass::Correct) == 1 && times(Pass::Store) == 1
                &&& times(Pass::Solve) == if bodies@[a as int].kind == BodyKind::Dynamic
                    || bodies@[b as int].kind == BodyKind::Dynamic {
                    4nat
                } else {
                    0nat
                }
            } else {
                &&& times(Pass::Prime) == 0 && times(Pass::Warm) == 0 && times(Pass::Solve) == 0
                &&& times(Pass::Correct) == 0 && times(Pass::Store) == 0
            }
        }),
{
    law_work_is_counted(bodies@, contacts@, k, Pass::Prime);
    law_work_is_counted(bodies@, contacts@, k, Pass::Warm);
    law_work_is_counted(bodies@, contacts@, k, Pass::Solve);
    law_work_is_counted(bodies@, contacts@, k, Pass::Correct);
    law_work_is_counted(bodies@, contacts@, k, Pass::Store);
}

/// How often a pass comes to a contact in a whole solve: not at all where the
/// contact does not name two different bodies that exist, or where impulses
/// would move neither; else once, and once a round for impulses.
pub proof fn law_work_is_counted(
    bs: Seq<BodyState>,
    contacts: Seq<(usize, usize)>,
    k: usize,
    pass: Pass,
)
    requires
        contacts.len() <= usize::MAX,
        k < contacts.len(),
    ensures
        ({
            let (a, b) = contacts[k as int];
            solve_work(bs, contacts).to_multiset().count(Work { pass, contact: k }) == if a == b
                || a >= bs.len() || b >= bs.len() {
                0nat
            } else if pass != Pass::Solve {
                1nat
            } else if bs[a as int].kind == BodyKind::Dynamic || bs[b as int].kind
                == BodyKind::Dynamic {
                SOLVER_ITERATIONS as nat
            } else {
                0nat
            }
        }),
{
    broadcast use vstd::seq_lib::group_to_multiset_ensures;

    let n = contacts.len();
    let w = Work { pass, contact: k };
    let prime = pass_work(Pass::Prime, bs, contacts, n);
    let warm = pass_work(Pass::Warm, bs, contacts, n);
    let rounds = solve_rounds(bs, contacts, SOLVER_ITERATIONS as nat);
    let correct = pass_work(Pass::Correct, bs, contacts, n);
    let store = pass_work(Pass::Store, bs, contacts, n);
    lemma_pass_count(Pass::Prime, bs, contacts, n, w);
    lemma_pass_count(Pass::Warm, bs, contacts, n, w);
    lemma_pass_count(Pass::Correct, bs, contacts, n, w);
    lemma_pass_count(Pass::Store, bs, contacts, n, w);
    lemma_rounds_count(bs, contacts, SOLVER_ITERATIONS as nat, w);
    vstd::seq_lib::lemma_multiset_commutative(prime, warm);
    vstd::seq_lib::lemma_multiset_commutative(prime + warm, rounds);
    vstd::seq_lib::lemma_multiset_commutative(prime + warm + rounds, correct);
    vstd::seq_lib::lemma_multiset_commutative(prime + warm + rounds + correct, store);
}

proof fn lemma_pass_ascends(
    pass: Pass,
    bs: Seq<BodyState>,
    contacts: Seq<(usize, usize)>,
    n: nat,
)
    requires
        n <= contacts.len() <= usize::MAX,
    ensures
        forall|i: int, j: int|
            0 <= i < j < pass_work(pass, bs, contacts, n).len() ==> (#[trigger] pass_work(
                pass,
                bs,
                contacts,
                n,
            )[i]).contact < (#[trigger] pass_work(pass, bs, contacts, n)[j]).contact,
    decreases n,
{
    if n > 0 {
        lemma_pass_ascends(pass, bs, contacts, (n - 1) as nat);
        lemma_pass(pass, bs, contacts, (n - 1) as nat);
    }
}

/// The passes stand in one order, the first before the second and so on, and a
/// pass that is made once goes through the contacts in theirs.
pub proof fn law_a_pass_goes_through_the_contacts_in_order(
    bs: Seq<BodyState>,
    contacts: Seq<(usize, usize)>,
    i: int,
    j: int,
)
    requires
        contacts.len() <= usize::MAX,
        0 <= i < j < solve_work(bs, contacts).len(),
    ensures
        ({
            let (first, then) = (solve_work(bs, contacts)[i], solve_work(bs, contacts)[j]);
            &&& first.pass == then.pass && first.pass != Pass::Solve ==> first.contact
                < then.contact
            &&& then.pass == Pass::Prime ==> first.pass == Pass::Prime
            &&& then.pass == Pass::Warm ==> first.pass == Pass::Prime || first.pass == Pass::Warm
            &&& then.pass == Pass::Solve ==> first.pass != Pass::Correct && first.pass
                != Pass::Store
            &&& then.pass == Pass::Correct ==> first.pass != Pass::Store
        }),
{
    let n = contacts.len();
    law_passes_come_in_order(bs, contacts, i, j);
    lemma_pass_ascends(Pass::Prime, bs, contacts, n);
    lemma_pass_ascends(Pass::Warm, bs, contacts, n);
    lemma_pass_ascends(Pass::Correct, bs, contacts, n);
    lemma_pass_ascends(Pass::Store, bs, contacts, n);
    lemma_pass(Pass::Prime, bs, contacts, n);
    lemma_pass(Pass::Warm, bs, contacts, n);
    lemma_pass(Pass::Correct, bs, contacts, n);
    lemma_pass(Pass::Store, bs, contacts, n);
    lemma_rounds(bs, contacts, SOLVER_ITERATIONS as nat);
}

/// Every round of impulses is the same: four times through the contacts in
/// their order.
pub proof fn law_the_rounds_are_alike(bs: Seq<BodyState>, contacts: Seq<(usize, usize)>)
    requires
        contacts.len() <= usize::MAX,
    ensures
        ({
            let round = pass_work(Pass::Solve, bs, contacts, contacts.len());
            &&& solve_rounds(bs, contacts, SOLVER_ITERATIONS as nat) == round + round + round
                + round
            &&& forall|i: int, j: int|
                0 <= i < j < round.len() ==> (#[trigger] round[i]).contact < (
                #[trigger] round[j]).contact
        }),
{
    reveal_with_fuel(solve_rounds, 5);
    lemma_pass_ascends(Pass::Solve, bs, contacts, contacts.len());
    let round = pass_work(Pass::Solve, bs, contacts, contacts.len());
    assert(Seq::<Work>::empty() + round =~= round);
}

/// Anything that is awake and in motion wakes the sleeper it touches, whatever
/// it is itself and whichever of the two a contact names first.
pub proof fn law_any_mover_wakes_its_partner(
    bs: Seq<BodyState>,
    contacts: Seq<(usize, usize)>,
    k: int,
    sleeper: usize,
    mover: usize,
)
    requires
        0 <= k < contacts.len(),
        contacts[k] == (sleeper, mover) || contacts[k] == (mover, sleeper),
        sleeper < bs.len(),
        mover < bs.len(),
        bs[sleeper as int].kind == BodyKind::Dynamic,
        !bs[mover as int].sleeping,
        !bs[mover as int].still,
    ensures
        !woken(bs, contacts)[sleeper as int].sleeping,
{
    law_motion_wakes_what_it_touches(bs, contacts, k, sleeper, mover);
}

/// Nothing is woken without cause: a body that a step woke was asleep, can be
/// moved, and is named by a contact whose other body is in motion and awake.
pub proof fn law_waking_needs_a_mover(
    bs: Seq<BodyState>,
    contacts: Seq<(usize, usize)>,
    i: usize,
)
    requires
        i < bs.len(),
        woken(bs, contacts)[i as int] != bs[i as int],
    ensures
        bs[i as int].sleeping && bs[i as int].kind == BodyKind::Dynamic,
        exists|k: int, other: usize|
            0 <= k < contacts.len() && other < bs.len() && (#[trigger] contacts[k] == (i, other)
                || contacts[k] == (other, i)) && !(#[trigger] bs[other as int]).still && !woken(
                bs,
                contacts,
            )[other as int].sleeping,
    decreases contacts.len(),
{
    law_contacts_only_wake(bs, contacts);
    if contacts.len() > 0 {
        let front = contacts.drop_last();
        let before = woken(bs, front);
        let (a, b) = contacts.last();
        let mid = touched(before, a, b);
        let last = contacts.len() - 1;
        law_contacts_only_wake(bs, front);
        if before[i as int] != bs[i as int] {
            law_waking_needs_a_mover(bs, front, i);
            let (k, other) = choose|k: int, other: usize|
                0 <= k < front.len() && other < bs.len() && (#[trigger] front[k] == (i, other)
                    || front[k] == (other, i)) && !(#[trigger] bs[other as int]).still && !woken(
                    bs,
                    front,
                )[other as int].sleeping;
            assert(contacts[k] == front[k]);
            assert(!bs[other as int].still);
        } else if mid[i as int] != before[i as int] {
            assert(i == a);
            assert(contacts[last] == (i, b));
            assert(!bs[b as int].still);
        } else {
            assert(i == b);
            assert(contacts[last] == (a, i));
            assert(!bs[a as int].still);
        }
    }
}

/// The best match is one of those that match, none is nearer, and of equally
/// near ones it is the first. There is one wherever anything matches.
pub proof fn law_the_best_match_is_nearest(ranks: Seq<Option<u64>>, k: int, j: int)
    requires
        0 <= j < ranks.len(),
        ranks[j] is Some,
    ensures
        is_best(ranks, k) ==> 0 <= k < ranks.len() && ranks[k] is Some && ranks[k]->0
            <= ranks[j]->0,
        is_best(ranks, k) && ranks[j]->0 == ranks[k]->0 ==> k <= j,
        exists|best: int| is_best(ranks, best),
{
    lemma_some_best(ranks, ranks.len() as int);
    let best = choose|best: int| is_best(ranks.take(ranks.len() as int), best);
    assert(ranks.take(ranks.len() as int) =~= ranks);
    assert(ranks.take(ranks.len() as int)[j] is Some);
    assert(is_best(ranks, best));
}

proof fn lemma_some_best(ranks: Seq<Option<u64>>, n: int)
    requires
        0 <= n <= ranks.len(),
    ensures
        (exists|j: int| 0 <= j < n && (#[trigger] ranks[j]) is Some) ==> exists|best: int|
            is_best(ranks.take(n), best),
    decreases n,
{
    if n > 0 {
        lemma_some_best(ranks, n - 1);
        let (less, more) = (ranks.take(n - 1), ranks.take(n));
        if exists|j: int| 0 <= j < n && (#[trigger] ranks[j]) is Some {
            if exists|j: int| 0 <= j < n - 1 && (#[trigger] ranks[j]) is Some {
                let best = choose|best: int| is_best(less, best);
                assert forall|j: int| 0 <= j < n - 1 implies more[j] == less[j] by {}
                if ranks[n - 1] is Some && ranks[n - 1]->0 < ranks[best]->0 {
                    assert forall|j: int|
                        0 <= j < n - 1 && (#[trigger] more[j]) is Some implies ranks[n - 1]->0
                        < more[j]->0 by {
                        assert(less[j] is Some);
                    }
                    assert(is_best(more, n - 1));
                } else {
                    assert forall|j: int| 0 <= j < n && (#[trigger] more[j]) is Some implies
                        more[best]->0 <= more[j]->0 by {
                        if j < n - 1 {
                            assert(less[j] is Some);
                        }
                    }
                    assert forall|j: int| 0 <= j < best && (#[trigger] more[j]) is Some implies
                        more[best]->0 < more[j]->0 by {
                        assert(less[j] is Some);
                    }
                    assert(is_best(more, best));
                }
            } else {
                assert(ranks[n - 1] is Some);
                assert(is_best(more, n - 1));
            }
        }
    }
}

/// Taking an entry out moves only the last one, into its place; and the points
/// of a cache are those of its pairs added up.
pub proof fn law_only_the_last_entry_moves<P>(
    list: Seq<P>,
    k: int,
    j: int,
    lists: Seq<((usize, usize), Vec<P>)>,
    more: ((usize, usize), Vec<P>),
)
    requires
        0 <= k < list.len(),
        0 <= j < list.len() - 1,
    ensures
        without_entry(list, k)[j] == if j == k {
            list[list.len() - 1]
        } else {
            list[j]
        },
        points_in(Seq::<((usize, usize), Vec<P>)>::empty()) == 0,
        points_in(lists.push(more)) == points_in(lists) + more.1@.len(),
{
    assert(lists.push(more).drop_last() =~= lists);
}

// ---------------------------------------------------------------------------
// What the calls do.
// ---------------------------------------------------------------------------

/// What a wake pass does: a body that can be moved is awake after it where a
/// contact, any of them and either way round, names it with a body that is
/// awake and in motion; nothing falls asleep by it, and nothing else about any
/// body changes.
pub proof fn law_what_a_wake_pass_does(
    contacts: &[(usize, usize)],
    k: int,
    sleeper: usize,
    mover: usize,
    i: usize,
)
    ensures
        forall|bodies: &mut Vec<BodyState>| #[trigger]
            call_ensures(wake_pass, (bodies, contacts), ()) ==> {
                let (before, after) = (bodies@, (*final(bodies))@);
                &&& after.len() == before.len()
                &&& i < before.len() ==> after[i as int].kind == before[i as int].kind
                    && after[i as int].still == before[i as int].still
                &&& i < before.len() && !before[i as int].sleeping ==> !after[i as int].sleeping
                &&& i < before.len() && !(before[i as int].kind is Dynamic) ==> after[i as int]
                    == before[i as int]
                &&& 0 <= k < contacts@.len() && (contacts@[k] == (sleeper, mover) || contacts@[k]
                    == (mover, sleeper)) && sleeper < before.len() && mover < before.len()
                    && before[sleeper as int].kind is Dynamic && !before[mover as int].sleeping
                    && !before[mover as int].still ==> !after[sleeper as int].sleeping
                &&& i < before.len() && before[i as int].sleeping && (forall|j: int, other: usize|
                    0 <= j < contacts@.len() && other < before.len() && (
                    #[trigger] contacts@[j] == (i, other) || contacts@[j] == (
                        other,
                        i,
                    )) ==> (#[trigger] before[other as int]).still) ==> after[i as int].sleeping
            },
{
    assert forall|bodies: &mut Vec<BodyState>| #[trigger]
        call_ensures(wake_pass, (bodies, contacts), ()) implies {
        let (before, after) = (bodies@, (*final(bodies))@);
        &&& after.len() == before.len()
        &&& i < before.len() ==> after[i as int].kind == before[i as int].kind
            && after[i as int].still == before[i as int].still
        &&& i < before.len() && !before[i as int].sleeping ==> !after[i as int].sleeping
        &&& i < before.len() && !(before[i as int].kind is Dynamic) ==> after[i as int]
            == before[i as int]
        &&& 0 <= k < contacts@.len() && (contacts@[k] == (sleeper, mover) || contacts@[k] == (
            mover,
            sleeper,
        )) && sleeper < before.len() && mover < before.len() && before[sleeper as int].kind
            is Dynamic && !before[mover as int].sleeping && !before[mover as int].still
            ==> !after[sleeper as int].sleeping
        &&& i < before.len() && before[i as int].sleeping && (forall|j: int, other: usize|
            0 <= j < contacts@.len() && other < before.len() && (#[trigger] contacts@[j] == (
                i,
                other,
            ) || contacts@[j] == (other, i)) ==> (#[trigger] before[other as int]).still)
            ==> after[i as int].sleeping
    } by {
        let before = bodies@;
        law_contacts_only_wake(before, contacts@);
        if i < before.len() && woken(before, contacts@)[i as int] != before[i as int] {
            law_waking_needs_a_mover(before, contacts@, i);
        }
        if 0 <= k < contacts@.len() && (contacts@[k] == (sleeper, mover) || contacts@[k] == (
            mover,
            sleeper,
        )) && sleeper < before.len() && mover < before.len() && before[sleeper as int].kind
            == BodyKind::Dynamic && !before[mover as int].sleeping && !before[mover as int].still {
            law_any_mover_wakes_its_partner(before, contacts@, k, sleeper, mover);
        }
    }
}

/// What taking the nearest point does, where `near` is how near a point is. It
/// is a point of that pair that is near at all, none of the pair is nearer, and
/// it is taken out; nothing is taken where none is near. No other pair is
/// touched.
pub proof fn law_what_taking_the_nearest_does<P, F: Fn(&P) -> Option<u64>>(
    a: usize,
    b: usize,
    rank: F,
    r: Option<P>,
    near: spec_fn(P) -> Option<u64>,
    j: int,
    other: (usize, usize),
)
    requires
        forall|p: &P, n: Option<u64>| #[trigger] call_ensures(rank, (p,), n) ==> n == near(*p),
        other != (a, b),
    ensures
        forall|c: &mut ContactCache<P>|
            c.wf() && #[trigger] call_ensures(
                ContactCache::<P>::take_nearest::<F>,
                (c, a, b, rank),
                r,
            ) ==> {
                let (before, after) = (c@, (*final(c))@);
                let list = before[(a, b)];
                &&& r is None ==> after == before
                &&& r is None && before.contains_key((a, b)) && 0 <= j < list.len() ==> near(
                    list[j],
                ) is None
                &&& r is Some ==> before.contains_key((a, b)) && list.contains(r->0) && near(
                    r->0,
                ) is Some
                &&& r is Some && 0 <= j < list.len() && near(list[j]) is Some ==> near(r->0)->0
                    <= near(list[j])->0
                &&& r is Some ==> after.contains_key((a, b)) && after[(a, b)].len() + 1
                    == list.len()
                &&& after.contains_key(other) <==> before.contains_key(other)
                &&& before.contains_key(other) ==> after[other] == before[other]
            },
{
    assert forall|c: &mut ContactCache<P>|
        c.wf() && #[trigger] call_ensures(
            ContactCache::<P>::take_nearest::<F>,
            (c, a, b, rank),
            r,
        ) implies {
        let before = c@;
        let list = before[(a, b)];
        &&& r is None && before.contains_key((a, b)) && 0 <= j < list.len() ==> near(
            list[j],
        ) is None
        &&& r is Some ==> before.contains_key((a, b)) && list.contains(r->0) && near(r->0) is Some
        &&& r is Some && 0 <= j < list.len() && near(list[j]) is Some ==> near(r->0)->0 <= near(
            list[j],
        )->0
    } by {
        let list = c@[(a, b)];
        if r is None && c@.contains_key((a, b)) && 0 <= j < list.len() {
            let ranks = choose|ranks: Seq<Option<u64>>|
                #[trigger] ranked(rank, list, ranks) && forall|i: int|
                    0 <= i < ranks.len() ==> (#[trigger] ranks[i]) is None;
            assert(ranked(rank, list, ranks));
            assert(call_ensures(rank, (&list[j],), ranks[j]));
        }
        if r is Some {
            let (ranks, k) = choose|ranks: Seq<Option<u64>>, k: int|
                #[trigger] ranked(rank, list, ranks) && #[trigger] is_best(ranks, k) && r->0
                    == list[k];
            assert(call_ensures(rank, (&list[k],), ranks[k]));
            assert(list[k] == r->0);
            if 0 <= j < list.len() {
                assert(call_ensures(rank, (&list[j],), ranks[j]));
            }
        }
    }
}

/// What remembering a point does: it goes behind those of its pair, and no other
/// pair is touched. Taking the cache out hands over all of it and leaves none.
pub proof fn law_what_remembering_a_point_does<P>(
    a: usize,
    b: usize,
    point: P,
    all: ContactCache<P>,
    other: (usize, usize),
)
    requires
        other != (a, b),
    ensures
        forall|c: &mut ContactCache<P>|
            c.wf() && #[trigger] call_ensures(ContactCache::<P>::store, (c, a, b, point), ()) ==> {
                let (before, after) = (c@, (*final(c))@);
                &&& after.contains_key((a, b)) && after[(a, b)].last() == point
                &&& before.contains_key((a, b)) ==> after[(a, b)].drop_last() == before[(a, b)]
                &&& !before.contains_key((a, b)) ==> after[(a, b)].len() == 1
                &&& after.contains_key(other) <==> before.contains_key(other)
                &&& before.contains_key(other) ==> after[other] == before[other]
            },
        forall|c: &mut ContactCache<P>|
            c.wf() && #[trigger] call_ensures(ContactCache::<P>::take, (c,), all) ==> all@ == c@
                && !(*final(c))@.contains_key(other) && !(*final(c))@.contains_key((a, b)),
        forall|c: &mut ContactCache<P>| #[trigger]
            call_ensures(ContactCache::<P>::clear, (c,), ()) ==> !(*final(c))@.contains_key(other)
                && (*final(c)).points() == 0,
{
    assert forall|c: &mut ContactCache<P>|
        c.wf() && #[trigger] call_ensures(ContactCache::<P>::store, (c, a, b, point), ())
            && c@.contains_key((a, b)) implies (*final(c))@[(a, b)].drop_last() == c@[(a, b)] by {
        assert(c@[(a, b)].push(point).drop_last() =~= c@[(a, b)]);
    }
}

/// A contact can be worked on exactly where it names two different bodies, both
/// of which exist.
pub proof fn law_a_contact_needs_two_bodies(a: usize, b: usize, bodies: usize, r: bool)
    requires
        call_ensures(resolvable, (a, b, bodies), r),
    ensures
        r <==> a != b && a < bodies && b < bodies,
{
}

/// How much is remembered: the points of all pairs together.
pub proof fn law_how_much_is_remembered<P>(
    fresh: ContactCache<P>,
    c: &ContactCache<P>,
    n: usize,
    empty: bool,
)
    requires
        call_ensures(ContactCache::<P>::new, (), fresh),
        c.points() <= usize::MAX,
        call_ensures(ContactCache::<P>::len, (c,), n),
        call_ensures(ContactCache::<P>::is_empty, (c,), empty),
    ensures
        fresh.points() == 0,
        n == c.points(),
        empty <==> n == 0,
{
}

} // verus!
