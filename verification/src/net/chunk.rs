//! MTU-aware datagram chunking with a header-shedding escalation policy.
//!
//! A packet is a **header** of scalars and bulk lists plus a **list of
//! items**. The item list is splittable; the header is not. The policy:
//!
//! 1. Try to send whole. Almost always fits; costs one syscall.
//! 2. `TooLarge` with n > 1 items: halve the item slice, retry. The first
//!    chunk carries the header, continuation chunks blank the bulk fields
//!    so they are paid for once per tick rather than once per chunk.
//! 3. `TooLarge` with n == 1: the *header* is oversized, not the item.
//!    Shed the header's bulk payload and retry with the same item. Never
//!    drop the item: an item is world state, whereas a shed header field
//!    is a list that arrives one tick late.
//! 4. `TooLarge` with a shed header and one item: give up and say so. The
//!    packet has outgrown datagrams and needs a reliable stream.
//!
//! The policy is stated as a state machine, [`Progress`] and [`advance`]:
//! what is attempted in a state, and where each outcome leads.
//! [`send_reported`] is proved to follow it, attempt by attempt, and the laws
//! at the end of this file say what the machine guarantees.

use crate::log::Level;
use crate::text;
use vstd::prelude::*;
use vstd::string::*;

verus! {

/// A packet the chunker can split: some header plus a list of items.
///
/// The model has a default, so that a packet outside the proofs need not give
/// one.
pub trait Chunkable: Sized {
    /// One element of the splittable list.
    type Item: Clone;

    /// The splittable payload.
    open spec fn item_list(&self) -> Seq<Self::Item> {
        arbitrary()
    }

    /// Whether `out` is this packet rebuilt to carry `items`, as the header
    /// chunk or as a continuation.
    open spec fn is_rebuild(&self, items: Seq<Self::Item>, is_header: bool, out: Self) -> bool {
        arbitrary()
    }

    /// Whether `out` is this packet's scalar core plus `items`.
    open spec fn is_shed(&self, items: Seq<Self::Item>, out: Self) -> bool {
        arbitrary()
    }

    /// The splittable payload.
    fn items(&self) -> (r: &[Self::Item])
        ensures
            r@ == self.item_list(),
    ;

    /// Rebuild the packet carrying exactly `items`.
    ///
    /// `is_header` is true for the first chunk of a send only. That chunk
    /// carries the bulk header fields; continuation chunks **must blank
    /// them**. Implementations should also forward the flag onto the wire,
    /// so the receiver can tell "blanked for chunking" from "genuinely
    /// empty".
    fn rebuild(&self, items: &[Self::Item], is_header: bool) -> (out: Self)
        ensures
            self.is_rebuild(items@, is_header, out),
    ;

    /// Rebuild with the bulk header fields shed entirely — the scalar core
    /// plus `items`, nothing else. Used when even header + one item will
    /// not fit.
    ///
    /// Whatever is shed here must be re-sent on the next tick. It is correct
    /// for state that is re-broadcast every tick and wrong for one-shot
    /// events, so keep those in the scalar core.
    fn rebuild_shed(&self, items: &[Self::Item]) -> (out: Self)
        ensures
            self.is_shed(items@, out),
    ;
}

/// Outcome of one attempted datagram write.
#[derive(Debug, Clone, Copy, PartialEq, Eq, Structural)]
pub enum SendOutcome {
    Sent,
    /// Over the current path MTU — the chunker will split or shed and
    /// retry. Must not be returned for any other failure.
    TooLarge,
    /// The connection is gone. Terminal: the chunker gives up.
    Closed,
}

/// One attempted datagram and what came of it.
pub struct Attempt {
    pub bytes: Seq<u8>,
    pub outcome: SendOutcome,
}

/// Where chunks go.
///
/// The model has a default, so that a sink outside the proofs need not give
/// one.
pub trait DatagramSink {
    /// Every datagram handed over so far, with its outcome.
    open spec fn history(&self) -> Seq<Attempt> {
        arbitrary()
    }

    /// Try to send one datagram.
    fn send(&mut self, bytes: Vec<u8>) -> (outcome: SendOutcome)
        ensures
            final(self).history() == old(self).history().push(Attempt { bytes: bytes@, outcome }),
    ;

    /// The peer's advertised max datagram size. `None` if unknown.
    fn max_datagram_size(&self) -> (r: Option<usize>)
        default_ensures
            r is None,
    {
        None
    }
}

/// Result of a whole [`send_chunked`] call.
#[derive(Debug, Clone, Copy, PartialEq, Eq, Structural)]
pub enum ChunkResult {
    /// Every item was delivered (possibly across several datagrams,
    /// possibly with a shed header).
    Delivered,
    /// The packet cannot fit a datagram at all and was dropped. The
    /// connection is still fine; the caller should consider a reliable
    /// stream for this packet type.
    Undeliverable,
    /// The connection closed mid-send.
    Closed,
}

/// Conservative floor for a QUIC datagram payload: IPv6's 1280 B minimum
/// link MTU, less the IPv6, UDP and QUIC overhead. A packet that fits here
/// fits anywhere.
pub const MIN_DATAGRAM_BUDGET: usize = 1200;

// ---------------------------------------------------------------------------
// The hint.
// ---------------------------------------------------------------------------

/// What a connection has learned about how many items fit a datagram.
///
/// Halving alone is a poor packer: it lands on the first power-of-two
/// fraction that fits rather than on capacity. Capacity is therefore
/// remembered *across* sends, which works because a connection's packet
/// shape barely changes from one tick to the next. Hold one per connection.
#[derive(Copy, Clone, Debug, PartialEq, Eq, Structural)]
pub struct ChunkHint {
    /// Largest item count known to have fitted.
    floor: Option<usize>,
    /// Smallest item count known not to have fitted.
    ceiling: Option<usize>,
}

/// A hint: the largest count known to fit, the smallest known not to.
pub struct HintView {
    pub floor: Option<nat>,
    pub ceiling: Option<nat>,
}

impl View for ChunkHint {
    type V = HintView;

    closed spec fn view(&self) -> HintView {
        HintView {
            floor: match self.floor {
                Some(f) => Some(f as nat),
                None => None,
            },
            ceiling: match self.ceiling {
                Some(c) => Some(c as nat),
                None => None,
            },
        }
    }
}

impl HintView {
    /// A hint that has learned nothing.
    pub open spec fn fresh() -> HintView {
        HintView { floor: None, ceiling: None }
    }

    /// Capacity is known exactly: no count is left untried between what fits
    /// and what does not.
    pub open spec fn converged(self) -> bool {
        match (self.floor, self.ceiling) {
            (Some(f), Some(c)) => f + 1 >= c,
            _ => false,
        }
    }

    /// Where a send of `items` items starts.
    ///
    /// With no ceiling known, a quarter above the floor: a link whose
    /// capacity grew finds it in a few ticks. With one known, halfway into
    /// the gap between the two.
    pub open spec fn start(self, items: nat) -> nat {
        match self.floor {
            None => items,
            Some(f) => {
                let probe: nat = match self.ceiling {
                    Some(c) => if c > f + 1 {
                        (f + (c - f) / 2) as nat
                    } else {
                        f
                    },
                    None => f + if f / 4 > 1 {
                        f / 4
                    } else {
                        1
                    },
                };
                let capped = if probe < items {
                    probe
                } else {
                    items
                };
                if capped > 1 {
                    capped
                } else {
                    1
                }
            },
        }
    }

    /// Whether sending `items` items whole is known not to fit.
    pub open spec fn whole_is_doomed(self, items: nat) -> bool {
        match self.ceiling {
            Some(c) => c <= items,
            None => false,
        }
    }

    /// After `n` items fitted.
    pub open spec fn after_fit(self, n: nat) -> HintView {
        HintView {
            floor: match self.floor {
                Some(f) => Some(
                    if f > n {
                        f
                    } else {
                        n
                    },
                ),
                None => Some(n),
            },
            ..self
        }
    }

    /// After `n` items did not fit. A floor at or above the new ceiling
    /// means the path shrank: it is forgotten in favour of the size just
    /// below.
    pub open spec fn after_reject(self, n: nat) -> HintView {
        let c: nat = match self.ceiling {
            Some(c) => if c < n {
                c
            } else {
                n
            },
            None => n,
        };
        HintView {
            floor: match self.floor {
                Some(f) => if f < c {
                    Some(f)
                } else if c > 1 {
                    Some((c - 1) as nat)
                } else {
                    None
                },
                None => None,
            },
            ceiling: Some(c),
        }
    }
}

impl ChunkHint {
    /// A hint that has learned nothing. Reproduces the halving-only policy
    /// on its first send.
    pub fn new() -> (h: Self)
        ensures
            h@ == HintView::fresh(),
    {
        ChunkHint { floor: None, ceiling: None }
    }

    /// Largest item count known to fit, once anything has been sent. After a
    /// refusal that shows it stale, the count just below what was refused.
    pub fn known_good(&self) -> (r: Option<usize>)
        ensures
            match r {
                Some(f) => self@.floor == Some(f as nat),
                None => self@.floor is None,
            },
    {
        self.floor
    }

    /// True once capacity is known exactly, at which point sends stop
    /// probing and cost no rejected datagrams at all.
    pub fn is_converged(&self) -> (r: bool)
        ensures
            r == self@.converged(),
    {
        match (self.floor, self.ceiling) {
            (Some(f), Some(c)) => f >= c || c - f <= 1,
            _ => false,
        }
    }

    /// Where a send should start, given the list it has to place.
    fn start_for(&self, items: usize) -> (r: usize)
        ensures
            r == self@.start(items as nat),
    {
        match self.floor {
            None => items,
            Some(floor) => {
                let probe: usize = match self.ceiling {
                    Some(c) => {
                        if c > floor && c - floor > 1 {
                            floor + (c - floor) / 2
                        } else {
                            floor
                        }
                    },
                    None => {
                        let step: usize = if floor / 4 > 1 {
                            floor / 4
                        } else {
                            1
                        };
                        // A probe past the list is cut back to it below.
                        if step >= usize::MAX - floor {
                            usize::MAX
                        } else {
                            floor + step
                        }
                    },
                };
                let capped: usize = if probe < items {
                    probe
                } else {
                    items
                };
                if capped > 1 {
                    capped
                } else {
                    1
                }
            },
        }
    }

    /// Should the whole-packet attempt be skipped? Once a smaller count is
    /// known not to fit, that attempt is a guaranteed rejection.
    fn skip_whole_attempt(&self, items: usize) -> (r: bool)
        ensures
            r == self@.whole_is_doomed(items as nat),
    {
        match self.ceiling {
            Some(c) => c <= items,
            None => false,
        }
    }

    fn record_fit(&mut self, n: usize)
        ensures
            final(self)@ == old(self)@.after_fit(n as nat),
    {
        self.floor = match self.floor {
            Some(f) => Some(
                if f > n {
                    f
                } else {
                    n
                },
            ),
            None => Some(n),
        };
    }

    fn record_reject(&mut self, n: usize)
        ensures
            final(self)@ == old(self)@.after_reject(n as nat),
    {
        let c: usize = match self.ceiling {
            Some(c) => if c < n {
                c
            } else {
                n
            },
            None => n,
        };
        self.ceiling = Some(c);
        if let Some(f) = self.floor {
            if f >= c {
                self.floor = if c > 1 {
                    Some(c - 1)
                } else {
                    None
                };
            }
        }
    }
}

impl Default for ChunkHint {
    /// A hint that has learned nothing.
    fn default() -> (h: Self)
        ensures
            h@ == HintView::fresh(),
    {
        ChunkHint::new()
    }
}

// ---------------------------------------------------------------------------
// The policy.
// ---------------------------------------------------------------------------

/// How far a send that is being split has come.
#[verifier::ext_equal]
pub struct Progress {
    /// Items delivered so far.
    pub at: nat,
    /// The chunk size to try.
    pub size: nat,
    /// Whether nothing has been delivered yet: only the first chunk of a
    /// send carries the bulk header.
    pub first: bool,
    /// Whether the header has been shed. Latches: if the header did not fit
    /// once it will not fit later either.
    pub shed: bool,
    pub hint: HintView,
}

impl Progress {
    /// How many items the next chunk carries.
    pub open spec fn width(self, total: nat) -> nat {
        if self.size < total - self.at {
            self.size
        } else {
            (total - self.at) as nat
        }
    }

    /// Whether the next chunk measures what the next send's first chunk
    /// will: it carries the bulk header. A shed or continuation chunk fits
    /// more items precisely because it carries less.
    pub open spec fn measures(self) -> bool {
        self.first && !self.shed
    }
}

/// Where an outcome leads.
pub enum Next {
    /// On to the next attempt.
    More(Progress),
    /// The send is over.
    Done(ChunkResult, HintView),
}

/// What one outcome does to a send that is being split.
pub open spec fn advance(s: Progress, total: nat, outcome: SendOutcome) -> Next {
    let n = s.width(total);
    match outcome {
        SendOutcome::Sent => Next::More(
            Progress {
                at: s.at + n,
                first: false,
                hint: if s.measures() {
                    s.hint.after_fit(n)
                } else {
                    s.hint
                },
                ..s
            },
        ),
        SendOutcome::Closed => Next::Done(ChunkResult::Closed, s.hint),
        SendOutcome::TooLarge => {
            let hint = if s.measures() {
                s.hint.after_reject(n)
            } else {
                s.hint
            };
            if n > 1 {
                Next::More(Progress { size: n / 2, hint, ..s })
            } else if !s.shed {
                Next::More(Progress { shed: true, hint, ..s })
            } else {
                Next::Done(ChunkResult::Undeliverable, hint)
            }
        },
    }
}

/// Whether `bytes` is what `encode` makes of `packet`.
pub open spec fn encodes<P, E: FnMut(&P) -> Vec<u8>>(encode: E, packet: P, bytes: Seq<u8>) -> bool {
    exists|v: Vec<u8>| v@ == bytes && #[trigger] call_ensures(encode, (&packet,), v)
}

/// Whether `bytes` is the chunk that is due in state `s`: the next items,
/// with the header that the state calls for.
pub open spec fn carries<P: Chunkable, E: FnMut(&P) -> Vec<u8>>(
    packet: P,
    encode: E,
    s: Progress,
    bytes: Seq<u8>,
) -> bool {
    let items = packet.item_list();
    let chunk = items.subrange(s.at as int, (s.at + s.width(items.len())) as int);
    exists|sub: P|
        #![trigger encodes(encode, sub, bytes)]
        encodes(encode, sub, bytes) && if s.shed {
            packet.is_shed(chunk, sub)
        } else {
            packet.is_rebuild(chunk, s.first, sub)
        }
}

/// Whether `attempts` are what the policy makes from state `s` on, ending
/// with `result` and leaving `hint`.
pub open spec fn follows<P: Chunkable, E: FnMut(&P) -> Vec<u8>>(
    packet: P,
    encode: E,
    s: Progress,
    attempts: Seq<Attempt>,
    result: ChunkResult,
    hint: HintView,
) -> bool
    decreases attempts.len(),
{
    let total = packet.item_list().len();
    if s.at >= total {
        attempts.len() == 0 && result == ChunkResult::Delivered && hint == s.hint
    } else {
        &&& attempts.len() > 0
        &&& carries(packet, encode, s, attempts[0].bytes)
        &&& match advance(s, total, attempts[0].outcome) {
            Next::Done(r, h) => attempts.len() == 1 && result == r && hint == h,
            Next::More(t) => follows(packet, encode, t, attempts.drop_first(), result, hint),
        }
    }
}

/// What is attempted once the packet is known not to fit whole.
pub open spec fn splits<P: Chunkable, E: FnMut(&P) -> Vec<u8>>(
    packet: P,
    encode: E,
    learned: HintView,
    attempts: Seq<Attempt>,
    result: ChunkResult,
    hint: HintView,
) -> bool {
    let total = packet.item_list().len();
    if total == 0 {
        // Nothing is splittable: shedding is the only move.
        &&& attempts.len() == 1
        &&& exists|sub: P|
            #![trigger encodes(encode, sub, attempts[0].bytes)]
            encodes(encode, sub, attempts[0].bytes) && packet.is_shed(Seq::empty(), sub)
        &&& result == (match attempts[0].outcome {
            SendOutcome::Sent => ChunkResult::Delivered,
            SendOutcome::Closed => ChunkResult::Closed,
            SendOutcome::TooLarge => ChunkResult::Undeliverable,
        })
        &&& hint == learned
    } else {
        follows(packet, encode, opening(learned, total), attempts, result, hint)
    }
}

/// Where splitting starts: nothing delivered, the header still in place, at
/// the size that the hint suggests.
pub open spec fn opening(learned: HintView, total: nat) -> Progress {
    Progress { at: 0, size: learned.start(total), first: true, shed: false, hint: learned }
}

/// Whether `attempts` are what the policy makes of a packet, ending with
/// `result` and leaving `hint`: first the whole packet, unless it is known
/// not to fit, then the splitting.
pub open spec fn sends<P: Chunkable, E: FnMut(&P) -> Vec<u8>>(
    packet: P,
    encode: E,
    before: HintView,
    attempts: Seq<Attempt>,
    result: ChunkResult,
    hint: HintView,
) -> bool {
    let total = packet.item_list().len();
    if before.whole_is_doomed(total) {
        splits(packet, encode, before, attempts, result, hint)
    } else {
        &&& attempts.len() > 0
        &&& encodes(encode, packet, attempts[0].bytes)
        &&& match attempts[0].outcome {
            SendOutcome::Sent => {
                &&& attempts.len() == 1
                &&& result == ChunkResult::Delivered
                &&& hint == if total > 0 {
                    before.after_fit(total)
                } else {
                    before
                }
            },
            SendOutcome::Closed => {
                attempts.len() == 1 && result == ChunkResult::Closed && hint == before
            },
            SendOutcome::TooLarge => splits(
                packet,
                encode,
                if total > 0 {
                    before.after_reject(total)
                } else {
                    before
                },
                attempts.drop_first(),
                result,
                hint,
            ),
        }
    }
}

/// Where the splitting of a packet ended: the state in which its last attempt
/// was made or, once everything was delivered, the one that led to. A packet
/// that was not split is where splitting would have started.
pub open spec fn ended(before: HintView, total: nat, os: Seq<SendOutcome>) -> Progress {
    if total == 0 {
        opening(before, total)
    } else if before.whole_is_doomed(total) {
        state_after(opening(before, total), total, os)
    } else if os.len() > 0 && os[0] == SendOutcome::TooLarge {
        state_after(opening(before.after_reject(total), total), total, os.drop_first())
    } else {
        opening(before, total)
    }
}

/// What became of a packet, for whoever keeps an eye on the transport.
#[derive(Debug, Clone, Copy, PartialEq, Eq, Structural)]
pub struct SendReport {
    pub result: ChunkResult,
    /// Whether the bulk header was shed to keep the items.
    pub header_shed: bool,
    /// How many items an undeliverable packet lost.
    pub dropped: usize,
}

impl SendReport {
    /// Whether this reports on a send that ended in state `s`.
    pub open spec fn ended_in(self, s: Progress, total: nat) -> bool {
        &&& self.header_shed == s.shed
        &&& self.dropped == if self.result == ChunkResult::Undeliverable {
            total - s.at
        } else {
            0
        }
    }

    /// Whether this reports on a send of `total` items with these outcomes.
    pub open spec fn tells_of(self, before: HintView, total: nat, os: Seq<SendOutcome>) -> bool {
        self.ended_in(ended(before, total, os), total)
    }

    /// Whether this reports on the splitting of `total` items with these
    /// outcomes.
    pub open spec fn split_tells_of(
        self,
        learned: HintView,
        total: nat,
        os: Seq<SendOutcome>,
    ) -> bool {
        self.ended_in(state_after(opening(learned, total), total, os), total)
    }

    /// The lines worth logging about a send, in order.
    pub open spec fn lines(self, mtu: Option<usize>, label: Seq<char>) -> Seq<(Level, Seq<char>)> {
        let shed = if self.header_shed {
            seq![
                (
                    Level::Warn,
                    "packet header exceeds datagram MTU ("@ + mtu_text(mtu) + " B) for "@ + label
                        + "; shedding bulk header fields to keep items"@,
                ),
            ]
        } else {
            Seq::empty()
        };
        if self.result != ChunkResult::Undeliverable {
            shed
        } else if self.dropped == 0 {
            shed.push(
                (
                    Level::Error,
                    "packet undeliverable: item-less shed header exceeds datagram MTU ("@
                        + mtu_text(mtu) + " B) for "@ + label + "; dropping"@,
                ),
            )
        } else {
            shed.push(
                (
                    Level::Error,
                    "packet undeliverable: scalar header + 1 item exceeds datagram MTU ("@
                        + mtu_text(mtu) + " B) for "@ + label + "; dropping "@ + text::decimal(
                        self.dropped as nat,
                    ) + " item(s)"@,
                ),
            )
        }
    }

    /// The lines worth logging about a send, worst last.
    ///
    /// `label` names the packet; pass something that identifies the tick or
    /// packet type, since these lines are the only signal that a packet is
    /// outgrowing the transport. `mtu` is what the sink says of the path.
    pub fn log_lines(&self, mtu: Option<usize>, label: &str) -> (lines: Vec<(Level, String)>)
        ensures
            line_views(lines@) == self.lines(mtu, label@),
    {
        let mut lines: Vec<(Level, String)> = Vec::new();
        if self.header_shed {
            let mut line = about_the_mtu("packet header exceeds datagram MTU (", mtu, label);
            line.append("; shedding bulk header fields to keep items");
            lines.push((Level::Warn, line));
        }
        if self.result == ChunkResult::Undeliverable {
            if self.dropped == 0 {
                let mut line = about_the_mtu(
                    "packet undeliverable: item-less shed header exceeds datagram MTU (",
                    mtu,
                    label,
                );
                line.append("; dropping");
                lines.push((Level::Error, line));
            } else {
                let mut line = about_the_mtu(
                    "packet undeliverable: scalar header + 1 item exceeds datagram MTU (",
                    mtu,
                    label,
                );
                line.append("; dropping ");
                text::push_decimal(&mut line, self.dropped as u128);
                line.append(" item(s)");
                lines.push((Level::Error, line));
            }
        }
        assert(line_views(lines@) =~= self.lines(mtu, label@));
        lines
    }
}

/// Lines by what they say.
pub open spec fn line_views(lines: Seq<(Level, String)>) -> Seq<(Level, Seq<char>)> {
    lines.map_values(|l: (Level, String)| (l.0, l.1@))
}

/// A datagram size that may not be known.
pub open spec fn mtu_text(mtu: Option<usize>) -> Seq<char> {
    match mtu {
        Some(n) => "Some("@ + text::decimal(n as nat) + ")"@,
        None => "None"@,
    }
}

fn about_the_mtu(what: &str, mtu: Option<usize>, label: &str) -> (s: String)
    ensures
        s@ == what@ + mtu_text(mtu) + " B) for "@ + label@,
{
    let mut s = what.to_owned();
    match mtu {
        Some(n) => {
            s.append("Some(");
            text::push_decimal(&mut s, n as u128);
            s.append(")");
        },
        None => s.append("None"),
    }
    s.append(" B) for ");
    s.append(label);
    assert(s@ =~= what@ + mtu_text(mtu) + " B) for "@ + label@);
    s
}

/// Send `packet`, splitting it across datagrams as needed.
///
/// `encode` serialises a rebuilt packet; the chunker is agnostic to the wire
/// format. `hint` carries what previous sends on this connection learned
/// about datagram capacity; see [`ChunkHint`]. Pass a fresh one to get the
/// halving-only behaviour. [`send_reported`] also says what is worth logging.
pub fn send_chunked<P, S, E>(sink: &mut S, packet: &P, encode: E, hint: &mut ChunkHint) -> (result:
    ChunkResult) where P: Chunkable, S: DatagramSink, E: FnMut(&P) -> Vec<u8>
    requires
        forall|p: &P| #[trigger] call_requires(encode, (p,)),
    ensures
        exists|attempts: Seq<Attempt>|
            final(sink).history() == old(sink).history() + attempts && #[trigger] sends(
                *packet,
                encode,
                old(hint)@,
                attempts,
                result,
                final(hint)@,
            ),
{
    send_reported(sink, packet, encode, hint).result
}

/// Send `packet` as [`send_chunked`] does, and report what became of it.
pub fn send_reported<P, S, E>(
    sink: &mut S,
    packet: &P,
    encode: E,
    hint: &mut ChunkHint,
) -> (report: SendReport) where P: Chunkable, S: DatagramSink, E: FnMut(&P) -> Vec<u8>
    requires
        forall|p: &P| #[trigger] call_requires(encode, (p,)),
    ensures
        exists|attempts: Seq<Attempt>|
            final(sink).history() == old(sink).history() + attempts && #[trigger] sends(
                *packet,
                encode,
                old(hint)@,
                attempts,
                report.result,
                final(hint)@,
            ) && report.tells_of(old(hint)@, packet.item_list().len(), outcomes(attempts)),
{
    let mut encoder = encode;
    let items: &[P::Item] = packet.items();
    let total: usize = items.len();
    let ghost before = sink.history();
    let ghost hint0 = hint@;
    let ghost mut whole = Seq::<Attempt>::empty();
    // Step 1: the overwhelmingly common case. One encode, one send.
    if !hint.skip_whole_attempt(total) {
        let bytes: Vec<u8> = encoder(packet);
        let ghost sent = bytes@;
        let outcome = sink.send(bytes);
        proof {
            whole = seq![Attempt { bytes: sent, outcome }];
        }
        match outcome {
            SendOutcome::Sent => {
                if total > 0 {
                    hint.record_fit(total);
                }
                assert(sends(*packet, encode, hint0, whole, ChunkResult::Delivered, hint@));
                return SendReport {
                    result: ChunkResult::Delivered,
                    header_shed: false,
                    dropped: 0,
                };
            },
            SendOutcome::Closed => {
                assert(sends(*packet, encode, hint0, whole, ChunkResult::Closed, hint@));
                return SendReport { result: ChunkResult::Closed, header_shed: false, dropped: 0 };
            },
            SendOutcome::TooLarge => {
                if total > 0 {
                    hint.record_reject(total);
                }
            },
        }
    }
    let ghost learned = hint@;
    if total == 0 {
        let shed = packet.rebuild_shed(items);
        assert(items@ =~= Seq::<P::Item>::empty());
        let bytes: Vec<u8> = encoder(&shed);
        let ghost sent = bytes@;
        let outcome = sink.send(bytes);
        let result = match outcome {
            SendOutcome::Sent => ChunkResult::Delivered,
            SendOutcome::Closed => ChunkResult::Closed,
            SendOutcome::TooLarge => ChunkResult::Undeliverable,
        };
        proof {
            let tail = seq![Attempt { bytes: sent, outcome }];
            assert(encodes(encode, shed, tail[0].bytes));
            assert(splits(*packet, encode, learned, tail, result, hint@));
            lemma_sends_by_splitting(*packet, encode, hint0, whole, tail, result, hint@);
            assert(sink.history() =~= before + (whole + tail));
        }
        return SendReport { result, header_shed: false, dropped: 0 };
    }
    let ghost tried = sink.history();
    assert(tried =~= before + whole);
    let report = split_items(sink, packet, encoder, hint);
    proof {
        let tail = choose|tail: Seq<Attempt>|
            sink.history() == tried + tail && #[trigger] follows(
                *packet,
                encode,
                opening(learned, total as nat),
                tail,
                report.result,
                hint@,
            ) && report.split_tells_of(learned, total as nat, outcomes(tail));
        assert(splits(*packet, encode, learned, tail, report.result, hint@));
        lemma_sends_by_splitting(*packet, encode, hint0, whole, tail, report.result, hint@);
        assert(sink.history() =~= before + (whole + tail));
        assert(outcomes(whole + tail) =~= outcomes(whole) + outcomes(tail));
        if whole.len() > 0 {
            assert(outcomes(whole + tail).drop_first() =~= outcomes(tail));
        }
    }
    report
}

/// After the packet was refused whole, or was not tried so, splitting it makes
/// a whole send.
proof fn lemma_sends_by_splitting<P: Chunkable, E: FnMut(&P) -> Vec<u8>>(
    packet: P,
    encode: E,
    before: HintView,
    whole: Seq<Attempt>,
    tail: Seq<Attempt>,
    result: ChunkResult,
    hint: HintView,
)
    requires
        ({
            let total = packet.item_list().len();
            let learned = if whole.len() > 0 && total > 0 {
                before.after_reject(total)
            } else {
                before
            };
            &&& splits(packet, encode, learned, tail, result, hint)
            &&& if before.whole_is_doomed(total) {
                whole.len() == 0
            } else {
                &&& whole.len() == 1
                &&& whole[0].outcome == SendOutcome::TooLarge
                &&& encodes(encode, packet, whole[0].bytes)
            }
        }),
    ensures
        sends(packet, encode, before, whole + tail, result, hint),
{
    if whole.len() > 0 {
        assert((whole + tail).drop_first() =~= tail);
    } else {
        assert(whole + tail =~= tail);
    }
}

/// Send the items of a packet that is known not to fit whole.
fn split_items<P, S, E>(sink: &mut S, packet: &P, encode: E, hint: &mut ChunkHint) -> (report:
    SendReport) where P: Chunkable, S: DatagramSink, E: FnMut(&P) -> Vec<u8>
    requires
        forall|p: &P| #[trigger] call_requires(encode, (p,)),
        packet.item_list().len() > 0,
    ensures
        exists|attempts: Seq<Attempt>|
            final(sink).history() == old(sink).history() + attempts && #[trigger] follows(
                *packet,
                encode,
                opening(old(hint)@, packet.item_list().len()),
                attempts,
                report.result,
                final(hint)@,
            ) && report.split_tells_of(old(hint)@, packet.item_list().len(), outcomes(attempts)),
{
    let mut encoder = encode;
    let items: &[P::Item] = packet.items();
    let total: usize = items.len();
    let ghost before = sink.history();
    // Start where this connection last succeeded rather than at the whole
    // list: a converged link opens at capacity and never pays a rejection.
    let mut chunk_size: usize = hint.start_for(total);
    let mut remaining: &[P::Item] = items;
    let mut first = true;
    let mut shed_header = false;
    let ghost mut done = Seq::<Attempt>::empty();
    let ghost all = packet.item_list();
    let ghost s0 = opening(hint@, total as nat);
    proof {
        assert(outcomes(done) =~= Seq::<SendOutcome>::empty());
        assert forall|tail: Seq<Attempt>, r: ChunkResult, h: HintView|
            #[trigger] follows(*packet, encode, s0, tail, r, h) implies follows(
            *packet,
            encode,
            s0,
            done + tail,
            r,
            h,
        ) by {
            assert(done + tail =~= tail);
        }
    }
    while remaining.len() > 0
        invariant
            encoder == encode,
            state_after(s0, total as nat, outcomes(done)) == (Progress {
                at: (total - remaining@.len()) as nat,
                size: chunk_size as nat,
                first,
                shed: shed_header,
                hint: hint@,
            }),
            before == old(sink).history(),
            all == packet.item_list(),
            total == all.len(),
            total > 0,
            chunk_size > 0,
            remaining@.len() <= total,
            remaining@ == all.subrange(total - remaining@.len(), total as int),
            forall|p: &P| #[trigger] call_requires(encode, (p,)),
            sink.history() == before + done,
            s0 == opening(old(hint)@, total as nat),
            forall|tail: Seq<Attempt>, r: ChunkResult, h: HintView|
                #[trigger] follows(
                    *packet,
                    encode,
                    (Progress {
                        at: (total - remaining@.len()) as nat,
                        size: chunk_size as nat,
                        first,
                        shed: shed_header,
                        hint: hint@,
                    }),
                    tail,
                    r,
                    h,
                ) ==> follows(*packet, encode, s0, done + tail, r, h),
        decreases remaining@.len(), chunk_size, !shed_header as int,
    {
        let ghost s = Progress {
            at: (total - remaining@.len()) as nat,
            size: chunk_size as nat,
            first,
            shed: shed_header,
            hint: hint@,
        };
        let n: usize = if chunk_size < remaining.len() {
            chunk_size
        } else {
            remaining.len()
        };
        let (chunk, rest) = remaining.split_at(n);
        proof {
            assert(chunk@ =~= all.subrange(s.at as int, s.at + n));
        }
        let sub = if shed_header {
            packet.rebuild_shed(chunk)
        } else {
            packet.rebuild(chunk, first)
        };
        let bytes: Vec<u8> = encoder(&sub);
        let ghost sent = bytes@;
        assert(encodes(encode, sub, sent));
        let outcome = sink.send(bytes);
        let ghost attempt = Attempt { bytes: sent, outcome };
        let ghost prev = done;
        proof {
            done = done.push(attempt);
            assert(outcomes(done).drop_last() =~= outcomes(prev));
            assert(outcomes(done).last() == outcome);
            assert forall|tail: Seq<Attempt>, r: ChunkResult, h: HintView|
                (match advance(s, total as nat, outcome) {
                    Next::Done(r1, h1) => tail.len() == 0 && r == r1 && h == h1,
                    Next::More(t) => follows(*packet, encode, t, tail, r, h),
                }) implies #[trigger] follows(*packet, encode, s0, done + tail, r, h) by {
                let step = seq![attempt] + tail;
                assert(step.drop_first() =~= tail);
                assert(follows(*packet, encode, s, step, r, h));
                assert(prev + step =~= done + tail);
            }
        }
        match outcome {
            SendOutcome::Sent => {
                if !shed_header && first {
                    hint.record_fit(n);
                }
                first = false;
                remaining = rest;
            },
            SendOutcome::Closed => {
                proof {
                    let none = Seq::<Attempt>::empty();
                    assert(follows(*packet, encode, s0, done + none, ChunkResult::Closed, hint@));
                    assert(done + none =~= done);
                }
                return SendReport {
                    result: ChunkResult::Closed,
                    header_shed: shed_header,
                    dropped: 0,
                };
            },
            SendOutcome::TooLarge => {
                if !shed_header && first {
                    hint.record_reject(n);
                }
                if n > 1 {
                    // Step 2: ordinary spillover. Halve and retry.
                    chunk_size = n / 2;
                } else if !shed_header {
                    // Step 3: header + a SINGLE item overflows, so the header
                    // is the problem. Shed its bulk payload and retry with
                    // the same item.
                    shed_header = true;
                } else {
                    // Step 4: even the scalar core plus one item will not fit.
                    proof {
                        let none = Seq::<Attempt>::empty();
                        assert(follows(
                            *packet,
                            encode,
                            s0,
                            done + none,
                            ChunkResult::Undeliverable,
                            hint@,
                        ));
                        assert(done + none =~= done);
                    }
                    return SendReport {
                        result: ChunkResult::Undeliverable,
                        header_shed: shed_header,
                        dropped: remaining.len(),
                    };
                }
            },
        }
    }
    proof {
        let none = Seq::<Attempt>::empty();
        let s = Progress {
            at: total as nat,
            size: chunk_size as nat,
            first,
            shed: shed_header,
            hint: hint@,
        };
        assert(follows(*packet, encode, s, none, ChunkResult::Delivered, hint@));
        assert(done + none =~= done);
    }
    SendReport { result: ChunkResult::Delivered, header_shed: shed_header, dropped: 0 }
}

// ---------------------------------------------------------------------------
// Laws of the policy.
// ---------------------------------------------------------------------------

/// The outcomes of a list of attempts.
pub open spec fn outcomes(attempts: Seq<Attempt>) -> Seq<SendOutcome> {
    attempts.map_values(|a: Attempt| a.outcome)
}

/// Where a send stands after some outcomes, none of which ended it.
pub open spec fn state_after(s: Progress, total: nat, os: Seq<SendOutcome>) -> Progress
    decreases os.len(),
{
    if os.len() == 0 {
        s
    } else {
        match advance(state_after(s, total, os.drop_last()), total, os.last()) {
            Next::More(t) => t,
            Next::Done(_, _) => state_after(s, total, os.drop_last()),
        }
    }
}

/// The items `[lo, hi)` of each chunk that was accepted, in order.
pub open spec fn accepted(s: Progress, total: nat, os: Seq<SendOutcome>) -> Seq<(nat, nat)>
    decreases os.len(),
{
    if os.len() == 0 {
        Seq::empty()
    } else {
        match advance(s, total, os[0]) {
            Next::Done(_, _) => Seq::empty(),
            Next::More(t) => if os[0] == SendOutcome::Sent {
                seq![(s.at, s.at + s.width(total))] + accepted(t, total, os.drop_first())
            } else {
                accepted(t, total, os.drop_first())
            },
        }
    }
}

/// Whether the ranges, one after the other and none empty, cover
/// `[from, to)`.
pub open spec fn tiles(rs: Seq<(nat, nat)>, from: nat, to: nat) -> bool
    decreases rs.len(),
{
    if rs.len() == 0 {
        from == to
    } else {
        rs[0].0 == from && rs[0].0 < rs[0].1 && tiles(rs.drop_first(), rs[0].1, to)
    }
}

/// A delivered packet has every item delivered exactly once, in order: the
/// accepted chunks cover the list without gap or overlap. Where the send
/// ended otherwise, they cover an initial part of it.
pub proof fn law_every_item_exactly_once<P: Chunkable, E: FnMut(&P) -> Vec<u8>>(
    packet: P,
    encode: E,
    s: Progress,
    attempts: Seq<Attempt>,
    result: ChunkResult,
    hint: HintView,
) -> (to: nat)
    requires
        follows(packet, encode, s, attempts, result, hint),
        s.size > 0,
        s.at <= packet.item_list().len(),
    ensures
        tiles(accepted(s, packet.item_list().len(), outcomes(attempts)), s.at, to),
        to <= packet.item_list().len(),
        result == ChunkResult::Delivered ==> to == packet.item_list().len(),
    decreases attempts.len(),
{
    let total = packet.item_list().len();
    let os = outcomes(attempts);
    if s.at >= total {
        s.at
    } else {
        assert(os.drop_first() =~= outcomes(attempts.drop_first()));
        match advance(s, total, attempts[0].outcome) {
            Next::Done(_, _) => s.at,
            Next::More(t) => {
                let to = law_every_item_exactly_once(
                    packet,
                    encode,
                    t,
                    attempts.drop_first(),
                    result,
                    hint,
                );
                if os[0] == SendOutcome::Sent {
                    let rest = accepted(t, total, os.drop_first());
                    let all = accepted(s, total, os);
                    assert(all.drop_first() =~= rest);
                }
                to
            },
        }
    }
}

/// A packet is only given up on after a chunk of one item with the header
/// already shed was refused as too large; and a send ends as closed exactly
/// where the last attempt found the connection gone.
pub proof fn law_giving_up_is_the_last_resort<P: Chunkable, E: FnMut(&P) -> Vec<u8>>(
    packet: P,
    encode: E,
    s: Progress,
    attempts: Seq<Attempt>,
    result: ChunkResult,
    hint: HintView,
)
    requires
        follows(packet, encode, s, attempts, result, hint),
        s.size > 0,
        s.at <= packet.item_list().len(),
    ensures
        result == ChunkResult::Undeliverable ==> {
            let t = state_after(s, packet.item_list().len(), outcomes(attempts).drop_last());
            &&& attempts.len() > 0
            &&& attempts.last().outcome == SendOutcome::TooLarge
            &&& t.shed
            &&& t.width(packet.item_list().len()) == 1
        },
        result == ChunkResult::Closed <==> attempts.len() > 0 && attempts.last().outcome
            == SendOutcome::Closed,
        forall|i: int|
            0 <= i < attempts.len() - 1 ==> (#[trigger] attempts[i]).outcome
                != SendOutcome::Closed,
    decreases attempts.len(),
{
    let total = packet.item_list().len();
    if s.at < total {
        let tail = attempts.drop_first();
        match advance(s, total, attempts[0].outcome) {
            Next::Done(_, _) => {},
            Next::More(t) => {
                law_giving_up_is_the_last_resort(packet, encode, t, tail, result, hint);
                if tail.len() > 0 {
                    let os = outcomes(attempts).drop_last();
                    assert(os.drop_first() =~= outcomes(tail).drop_last());
                    lemma_state_after_first(s, total, os);
                }
                assert forall|i: int| 0 <= i < attempts.len() - 1 implies (
                #[trigger] attempts[i]).outcome != SendOutcome::Closed by {
                    if i > 0 {
                        assert(tail[i - 1] == attempts[i]);
                    }
                }
            },
        }
    }
}

proof fn lemma_state_after_first(s: Progress, total: nat, os: Seq<SendOutcome>)
    requires
        os.len() > 0,
    ensures
        advance(s, total, os[0]) matches Next::More(t) ==> state_after(s, total, os)
            == state_after(t, total, os.drop_first()),
    decreases os.len(),
{
    if let Next::More(t) = advance(s, total, os[0]) {
        if os.len() > 1 {
            lemma_state_after_first(s, total, os.drop_last());
            assert(os.drop_last().drop_first() =~= os.drop_first().drop_last());
        }
    }
}

/// The bulk header rides only until something was accepted, and shedding
/// latches: once accepted or shed, no later chunk of the send goes back.
pub proof fn law_header_and_shedding_latch(
    s: Progress,
    total: nat,
    os: Seq<SendOutcome>,
    n: int,
)
    requires
        0 <= n <= os.len(),
    ensures
        state_after(s, total, os.take(n)).shed ==> state_after(s, total, os).shed,
        !state_after(s, total, os.take(n)).first ==> !state_after(s, total, os).first,
        n < os.len() && os[n] == SendOutcome::Sent ==> !state_after(s, total, os).first,
        state_after(s, total, os.take(n)).at <= state_after(s, total, os).at,
    decreases os.len() - n,
{
    if n == os.len() {
        assert(os.take(n) =~= os);
    } else {
        law_header_and_shedding_latch(s, total, os, n + 1);
        let longer = os.take(n + 1);
        assert(longer.drop_last() =~= os.take(n));
    }
}

// ---------------------------------------------------------------------------
// Laws of the hint.
// ---------------------------------------------------------------------------

/// A fresh hint starts at the whole list and skips nothing: the halving-only
/// policy.
pub proof fn law_fresh_hint_starts_whole(items: nat)
    ensures
        HintView::fresh().start(items) == items,
        !HintView::fresh().whole_is_doomed(items),
{
}

/// Between a size that fits and one that does not, the next start lies
/// strictly between the two, and either outcome narrows the gap.
pub proof fn law_bisection_closes_the_gap(h: HintView, items: nat)
    requires
        h.floor is Some,
        h.ceiling is Some,
        h.floor->Some_0 + 1 < h.ceiling->Some_0,
        h.ceiling->Some_0 <= items,
    ensures
        h.floor->Some_0 < h.start(items) < h.ceiling->Some_0,
        ({
            let fit = h.after_fit(h.start(items));
            let reject = h.after_reject(h.start(items));
            &&& fit.floor == Some(h.start(items)) && fit.ceiling == h.ceiling
            &&& reject.floor == h.floor && reject.ceiling == Some(h.start(items))
        }),
{
}

/// A converged hint opens at the size known to fit, and skips the whole
/// packet where that is known not to: nothing is tried that was refused.
pub proof fn law_converged_hint_does_not_probe(h: HintView, items: nat)
    requires
        h.converged(),
        0 < h.floor->Some_0 < h.ceiling->Some_0,
        items > 0,
    ensures
        h.start(items) <= h.floor->Some_0,
        h.start(items) < h.ceiling->Some_0,
        h.ceiling->Some_0 <= items ==> h.start(items) == h.floor->Some_0 && h.whole_is_doomed(
            items,
        ),
{
}

/// A refusal never leaves a floor that is known to fail.
pub proof fn law_refusal_retracts_a_stale_floor(h: HintView, n: nat)
    ensures
        h.after_reject(n).ceiling is Some,
        h.after_reject(n).ceiling->Some_0 <= n,
        h.after_reject(n).floor matches Some(f) ==> f < h.after_reject(n).ceiling->Some_0,
{
}

/// How many items the `j`-th attempt of a splitting carried beside the bulk
/// header, where it carried that.
pub open spec fn split_header_size(
    s: Progress,
    total: nat,
    os: Seq<SendOutcome>,
    j: int,
) -> Option<nat> {
    let t = state_after(s, total, os.take(j));
    if t.measures() {
        Some(t.width(total))
    } else {
        None
    }
}

/// How many items the `j`-th attempt of a send carried beside the bulk header,
/// where it carried both.
pub open spec fn header_size(
    before: HintView,
    total: nat,
    os: Seq<SendOutcome>,
    j: int,
) -> Option<nat> {
    if total == 0 {
        None
    } else if before.whole_is_doomed(total) {
        split_header_size(opening(before, total), total, os, j)
    } else if j == 0 {
        Some(total)
    } else {
        split_header_size(
            opening(before.after_reject(total), total),
            total,
            os.drop_first(),
            j - 1,
        )
    }
}

/// Whether the size that a hint calls good is below `n`.
pub open spec fn good_below(h: HintView, n: nat) -> bool {
    h.floor matches Some(f) ==> f < n
}

proof fn lemma_size_shrinks(s: Progress, total: nat, os: Seq<SendOutcome>)
    requires
        s.at <= total,
    ensures
        state_after(s, total, os).size <= s.size,
        state_after(s, total, os).at <= total,
    decreases os.len(),
{
    if os.len() > 0 {
        lemma_size_shrinks(s, total, os.drop_last());
    }
}

/// The sizes after the first attempt are those of the state it led to.
proof fn lemma_split_header_size_first(s: Progress, total: nat, os: Seq<SendOutcome>, j: int)
    requires
        0 < j <= os.len(),
        advance(s, total, os[0]) is More,
    ensures
        split_header_size(s, total, os, j) == split_header_size(
            advance(s, total, os[0])->More_0,
            total,
            os.drop_first(),
            j - 1,
        ),
{
    lemma_state_after_first(s, total, os.take(j));
    assert(os.take(j).drop_first() =~= os.drop_first().take(j - 1));
}

/// Once the header is gone, the hint learns nothing more.
proof fn lemma_hint_settles<P: Chunkable, E: FnMut(&P) -> Vec<u8>>(
    packet: P,
    encode: E,
    s: Progress,
    attempts: Seq<Attempt>,
    result: ChunkResult,
    hint: HintView,
)
    requires
        follows(packet, encode, s, attempts, result, hint),
        !s.measures(),
    ensures
        hint == s.hint,
    decreases attempts.len(),
{
    let total = packet.item_list().len();
    if s.at < total {
        if let Next::More(t) = advance(s, total, attempts[0].outcome) {
            lemma_hint_settles(packet, encode, t, attempts.drop_first(), result, hint);
        }
    }
}

/// A good size below `n` stays there as long as no chunk of `n` items is
/// accepted beside the header.
proof fn lemma_good_stays_below<P: Chunkable, E: FnMut(&P) -> Vec<u8>>(
    packet: P,
    encode: E,
    s: Progress,
    attempts: Seq<Attempt>,
    result: ChunkResult,
    hint: HintView,
    n: nat,
)
    requires
        follows(packet, encode, s, attempts, result, hint),
        good_below(s.hint, n),
        s.measures() ==> s.size <= n,
        s.measures() ==> forall|j: int|
            0 <= j < attempts.len() && (#[trigger] attempts[j]).outcome == SendOutcome::Sent
                ==> split_header_size(s, packet.item_list().len(), outcomes(attempts), j) != Some(n),
    ensures
        good_below(hint, n),
    decreases attempts.len(),
{
    let total = packet.item_list().len();
    let os = outcomes(attempts);
    if !s.measures() {
        lemma_hint_settles(packet, encode, s, attempts, result, hint);
    } else if s.at < total {
        let tail = attempts.drop_first();
        assert(os.take(0) =~= Seq::<SendOutcome>::empty());
        assert(split_header_size(s, total, os, 0) == Some(s.width(total)));
        assert(attempts[0].outcome == os[0]);
        if let Next::More(t) = advance(s, total, attempts[0].outcome) {
            assert(os.drop_first() =~= outcomes(tail));
            assert forall|j: int|
                0 <= j < tail.len() && (#[trigger] tail[j]).outcome
                    == SendOutcome::Sent implies split_header_size(t, total, outcomes(tail), j)
                != Some(n) by {
                assert(attempts[j + 1] == tail[j]);
                lemma_split_header_size_first(s, total, os, j + 1);
            }
            lemma_good_stays_below(packet, encode, t, tail, result, hint, n);
        }
    }
}

/// While splitting, a size that is refused beside the header is not tried
/// again, so it is not called good afterwards.
proof fn lemma_refused_while_splitting<P: Chunkable, E: FnMut(&P) -> Vec<u8>>(
    packet: P,
    encode: E,
    s: Progress,
    attempts: Seq<Attempt>,
    result: ChunkResult,
    hint: HintView,
    k: int,
    n: nat,
)
    requires
        follows(packet, encode, s, attempts, result, hint),
        0 <= k < attempts.len(),
        attempts[k].outcome == SendOutcome::TooLarge,
        split_header_size(s, packet.item_list().len(), outcomes(attempts), k) == Some(n),
    ensures
        good_below(hint, n),
    decreases k,
{
    let total = packet.item_list().len();
    let os = outcomes(attempts);
    let tail = attempts.drop_first();
    assert(os.drop_first() =~= outcomes(tail));
    assert(attempts[0].outcome == os[0]);
    assert(os.take(0) =~= Seq::<SendOutcome>::empty());
    if let Next::More(t) = advance(s, total, attempts[0].outcome) {
        if k == 0 {
            assert forall|j: int|
                0 <= j < tail.len() && (#[trigger] tail[j]).outcome == SendOutcome::Sent
                    && t.measures() implies split_header_size(t, total, outcomes(tail), j)
                != Some(n) by {
                lemma_size_shrinks(t, total, outcomes(tail).take(j));
            }
            lemma_good_stays_below(packet, encode, t, tail, result, hint, n);
        } else {
            lemma_split_header_size_first(s, total, os, k);
            lemma_refused_while_splitting(packet, encode, t, tail, result, hint, k - 1, n);
        }
    }
}

/// What is called good after a send is not what was just refused: where a
/// number of items was too large beside the bulk header, the largest count
/// known to fit is below it. The one thing that may overrule a refusal is the
/// same number being accepted, beside the header, later in the same send.
pub proof fn law_known_good_is_below_what_was_refused<P: Chunkable, E: FnMut(&P) -> Vec<u8>>(
    packet: P,
    encode: E,
    before: HintView,
    attempts: Seq<Attempt>,
    result: ChunkResult,
    hint: HintView,
    k: int,
    n: nat,
)
    requires
        sends(packet, encode, before, attempts, result, hint),
        0 <= k < attempts.len(),
        attempts[k].outcome == SendOutcome::TooLarge,
        header_size(before, packet.item_list().len(), outcomes(attempts), k) == Some(n),
        forall|j: int|
            k < j < attempts.len() && (#[trigger] attempts[j]).outcome == SendOutcome::Sent
                ==> header_size(before, packet.item_list().len(), outcomes(attempts), j) != Some(n),
    ensures
        good_below(hint, n),
{
    let total = packet.item_list().len();
    let os = outcomes(attempts);
    if before.whole_is_doomed(total) {
        let s = opening(before, total);
        lemma_refused_while_splitting(packet, encode, s, attempts, result, hint, k, n);
    } else {
        let s = opening(before.after_reject(total), total);
        let tail = attempts.drop_first();
        assert(os.drop_first() =~= outcomes(tail));
        if k == 0 {
            assert forall|j: int|
                0 <= j < tail.len() && (#[trigger] tail[j]).outcome
                    == SendOutcome::Sent implies split_header_size(s, total, outcomes(tail), j)
                != Some(n) by {
                assert(attempts[j + 1] == tail[j]);
            }
            lemma_good_stays_below(packet, encode, s, tail, result, hint, n);
        } else {
            assert(tail[k - 1] == attempts[k]);
            lemma_refused_while_splitting(packet, encode, s, tail, result, hint, k - 1, n);
        }
    }
}

proof fn lemma_fit_while_splitting<P: Chunkable, E: FnMut(&P) -> Vec<u8>>(
    packet: P,
    encode: E,
    s: Progress,
    attempts: Seq<Attempt>,
    result: ChunkResult,
    hint: HintView,
    k: int,
    n: nat,
)
    requires
        follows(packet, encode, s, attempts, result, hint),
        0 <= k < attempts.len(),
        attempts[k].outcome == SendOutcome::Sent,
        split_header_size(s, packet.item_list().len(), outcomes(attempts), k) == Some(n),
    ensures
        hint.floor is Some,
        hint.floor->Some_0 >= n,
    decreases k,
{
    let total = packet.item_list().len();
    let os = outcomes(attempts);
    let tail = attempts.drop_first();
    assert(os.drop_first() =~= outcomes(tail));
    assert(attempts[0].outcome == os[0]);
    assert(os.take(0) =~= Seq::<SendOutcome>::empty());
    if let Next::More(t) = advance(s, total, attempts[0].outcome) {
        if k == 0 {
            lemma_hint_settles(packet, encode, t, tail, result, hint);
        } else {
            lemma_split_header_size_first(s, total, os, k);
            lemma_fit_while_splitting(packet, encode, t, tail, result, hint, k - 1, n);
        }
    }
}

/// What fitted is remembered: where a number of items was accepted beside the
/// bulk header, the largest count known to fit is at least that after the send.
pub proof fn law_known_good_covers_what_fitted<P: Chunkable, E: FnMut(&P) -> Vec<u8>>(
    packet: P,
    encode: E,
    before: HintView,
    attempts: Seq<Attempt>,
    result: ChunkResult,
    hint: HintView,
    k: int,
    n: nat,
)
    requires
        sends(packet, encode, before, attempts, result, hint),
        0 <= k < attempts.len(),
        attempts[k].outcome == SendOutcome::Sent,
        header_size(before, packet.item_list().len(), outcomes(attempts), k) == Some(n),
    ensures
        hint.floor is Some,
        hint.floor->Some_0 >= n,
{
    let total = packet.item_list().len();
    let os = outcomes(attempts);
    if before.whole_is_doomed(total) {
        let s = opening(before, total);
        lemma_fit_while_splitting(packet, encode, s, attempts, result, hint, k, n);
    } else if k > 0 {
        let s = opening(before.after_reject(total), total);
        let tail = attempts.drop_first();
        assert(os.drop_first() =~= outcomes(tail));
        assert(tail[k - 1] == attempts[k]);
        lemma_fit_while_splitting(packet, encode, s, tail, result, hint, k - 1, n);
    }
}

// ---------------------------------------------------------------------------
// Laws of a single step.
// ---------------------------------------------------------------------------

/// What fits is added to what is known to fit, and nothing else changes: the
/// floor is the larger of what it was and what fitted.
pub proof fn law_a_fit_raises_the_floor(h: HintView, n: nat)
    ensures
        h.after_fit(n).floor is Some,
        h.after_fit(n).floor->Some_0 >= n,
        h.after_fit(n).floor->Some_0 == n || h.after_fit(n).floor == h.floor,
        h.floor is Some ==> h.after_fit(n).floor->Some_0 >= h.floor->Some_0,
        h.after_fit(n).ceiling == h.ceiling,
{
}

/// What did not fit is the ceiling, unless a smaller count already was. A floor
/// below it stands; one that is not gives way to the count just below, if any.
pub proof fn law_a_refusal_lowers_the_ceiling(h: HintView, n: nat)
    ensures
        h.ceiling is None || h.ceiling->Some_0 >= n ==> h.after_reject(n).ceiling == Some(n),
        h.ceiling is Some && h.ceiling->Some_0 <= n ==> h.after_reject(n).ceiling == h.ceiling,
        h.floor is None ==> h.after_reject(n).floor is None,
        h.floor is Some && h.floor->Some_0 < n && (h.ceiling is None || h.floor->Some_0
            < h.ceiling->Some_0) ==> h.after_reject(n).floor == h.floor,
        h.floor is Some && h.floor->Some_0 >= h.after_reject(n).ceiling->Some_0
            && h.after_reject(n).ceiling->Some_0 > 1 ==> h.after_reject(n).floor is Some
            && h.after_reject(n).floor->Some_0 + 1 == h.after_reject(n).ceiling->Some_0,
        h.floor is Some && h.floor->Some_0 >= h.after_reject(n).ceiling->Some_0
            && h.after_reject(n).ceiling->Some_0 <= 1 ==> h.after_reject(n).floor is None,
{
}

/// Splitting starts within the list, at one item or more. Where no count is
/// known to fail it starts a quarter above what is known to fit, by one item at
/// least, so that a path that grew is found out; where one is, halfway up to
/// it.
pub proof fn law_where_splitting_starts(h: HintView, items: nat)
    requires
        items > 0,
    ensures
        1 <= h.start(items) <= items,
        h.floor is None ==> h.start(items) == items,
        h.floor is Some && h.ceiling is None && 4 <= h.floor->Some_0 && h.floor->Some_0
            + h.floor->Some_0 / 4 <= items ==> h.start(items) == h.floor->Some_0
            + h.floor->Some_0 / 4,
        h.floor is Some && h.ceiling is None && h.floor->Some_0 < 4 && h.floor->Some_0 + 1 <= items
            ==> h.start(items) == h.floor->Some_0 + 1,
        h.floor is Some && h.ceiling is None && h.floor->Some_0 >= items ==> h.start(items)
            == items,
        h.floor is Some && h.ceiling is Some && h.floor->Some_0 + 1 < h.ceiling->Some_0
            && h.ceiling->Some_0 <= items ==> {
            let up = h.start(items) - h.floor->Some_0;
            let down = h.ceiling->Some_0 - h.start(items);
            up == down || up + 1 == down
        },
        h.floor is Some && h.ceiling is Some && h.floor->Some_0 + 1 >= h.ceiling->Some_0 && 1
            <= h.floor->Some_0 <= items ==> h.start(items) == h.floor->Some_0,
        h.floor is Some && h.ceiling is None && h.floor->Some_0 + h.floor->Some_0 / 4 >= items
            ==> h.start(items) == items,
        h.floor is Some && h.ceiling is Some && h.floor->Some_0 + 1 < h.ceiling->Some_0 ==> {
            let middle = (h.floor->Some_0 + h.ceiling->Some_0) / 2;
            h.start(items) == if middle < items {
                middle
            } else {
                items
            }
        },
        h.floor is Some && h.ceiling is Some && h.floor->Some_0 + 1 >= h.ceiling->Some_0
            && h.floor->Some_0 > items ==> h.start(items) == items,
        h.floor is Some && h.ceiling is Some && h.floor->Some_0 + 1 >= h.ceiling->Some_0
            && h.floor->Some_0 == 0 ==> h.start(items) == 1,
{
}

/// A packet is not tried whole exactly where a count no larger than its own is
/// known to fail.
pub proof fn law_what_is_known_to_fail_is_not_tried(h: HintView, items: nat)
    ensures
        h.whole_is_doomed(items) <==> (h.ceiling is Some && h.ceiling->Some_0 <= items),
        h.whole_is_doomed(items) ==> h.whole_is_doomed(items + 1),
{
}

/// A hint answers what it has learned.
pub proof fn law_a_hint_tells_what_it_knows(
    h: &ChunkHint,
    good: Option<usize>,
    converged: bool,
    n: nat,
)
    requires
        call_ensures(ChunkHint::known_good, (h,), good),
        call_ensures(ChunkHint::is_converged, (h,), converged),
    ensures
        good is Some <==> h@.floor is Some,
        good is Some ==> good->Some_0 == h@.floor->Some_0,
        converged ==> h@.floor is Some && h@.ceiling is Some && !(h@.floor->Some_0 < n
            < h@.ceiling->Some_0),
        !converged && h@.floor is Some && h@.ceiling is Some ==> h@.floor->Some_0 < h@.floor->Some_0
            + 1 < h@.ceiling->Some_0,
{
}

/// An accepted chunk moves the send on by the items in it and by no more, at
/// the same size. Only a chunk with the bulk header says how much fits.
pub proof fn law_an_accepted_chunk_moves_on(s: Progress, total: nat)
    requires
        s.at < total,
        s.size > 0,
    ensures
        advance(s, total, SendOutcome::Sent) is More,
        ({
            let t = advance(s, total, SendOutcome::Sent)->More_0;
            let n = t.at - s.at;
            &&& 0 < n <= s.size
            &&& n == s.size || t.at == total
            &&& t.at <= total
            &&& t.size == s.size
            &&& !t.first
            &&& t.shed == s.shed
            &&& s.first && !s.shed ==> t.hint == s.hint.after_fit(n as nat)
            &&& !s.first || s.shed ==> t.hint == s.hint
        }),
{
}

/// A refused chunk of several items is halved; one of a single item has its
/// header shed; and one that had, ends the send. Nothing was delivered by it,
/// and it is remembered only where it carried the bulk header.
pub proof fn law_a_refused_chunk_gives_way(s: Progress, total: nat)
    requires
        s.at < total,
        s.size > 0,
    ensures
        ({
            let n = if s.size <= total - s.at {
                s.size as int
            } else {
                total - s.at
            };
            let next = advance(s, total, SendOutcome::TooLarge);
            let known = if s.first && !s.shed {
                s.hint.after_reject(n as nat)
            } else {
                s.hint
            };
            &&& n > 1 ==> next is More && next->More_0.size == n / 2 && next->More_0.shed == s.shed
            &&& n == 1 && !s.shed ==> next is More && next->More_0.shed && next->More_0.size
                == s.size
            &&& n == 1 && s.shed ==> next == Next::Done(ChunkResult::Undeliverable, known)
            &&& next is More ==> next->More_0.at == s.at && next->More_0.first == s.first
                && next->More_0.hint == known
        }),
{
}

/// A lost connection ends the send, and nothing is learned from it.
pub proof fn law_a_closed_connection_ends_the_send(s: Progress, total: nat)
    ensures
        advance(s, total, SendOutcome::Closed) == Next::Done(ChunkResult::Closed, s.hint),
{
}

/// The first datagram of a send is the packet whole, unless as many items are
/// known to fail; then it is a header chunk of the first items.
pub proof fn law_the_whole_packet_goes_first<P: Chunkable, E: FnMut(&P) -> Vec<u8>>(
    packet: P,
    encode: E,
    before: HintView,
    attempts: Seq<Attempt>,
    result: ChunkResult,
    hint: HintView,
)
    requires
        sends(packet, encode, before, attempts, result, hint),
    ensures
        attempts.len() > 0,
        before.ceiling is None || before.ceiling->Some_0 > packet.item_list().len() ==> exists|
            bytes: Vec<u8>,
        |
            bytes@ == attempts[0].bytes && #[trigger] call_ensures(encode, (&packet,), bytes),
        before.ceiling is Some && 0 < before.ceiling->Some_0 <= packet.item_list().len() ==> exists|
            sub: P,
        |
            #![trigger encodes(encode, sub, attempts[0].bytes)]
            encodes(encode, sub, attempts[0].bytes) && packet.is_rebuild(
                packet.item_list().take(before.start(packet.item_list().len()) as int),
                true,
                sub,
            ),
        (before.ceiling is None || before.ceiling->Some_0 > packet.item_list().len())
            && attempts[0].outcome is Sent ==> attempts.len() == 1 && result is Delivered,
        attempts[0].outcome is Closed ==> attempts.len() == 1 && result is Closed,
{
    let total = packet.item_list().len();
    if before.whole_is_doomed(total) && total > 0 {
        law_where_splitting_starts(before, total);
        let s = opening(before, total);
        assert(packet.item_list().subrange(0, s.width(total) as int) =~= packet.item_list().take(
            before.start(total) as int,
        ));
        assert(carries(packet, encode, s, attempts[0].bytes));
        let sub = choose|sub: P|
            #![trigger encodes(encode, sub, attempts[0].bytes)]
            encodes(encode, sub, attempts[0].bytes) && packet.is_rebuild(
                packet.item_list().subrange(s.at as int, (s.at + s.width(total)) as int),
                true,
                sub,
            );
        assert(encodes(encode, sub, attempts[0].bytes));
    }
}

/// What is said of a send: a warning where the header was shed, and an error
/// where the packet was lost, with the number of its items where it had any.
/// Nothing is said of any other send.
pub proof fn law_what_is_said_of_a_send(
    report: &SendReport,
    mtu: Option<usize>,
    label: &str,
    lines: Vec<(Level, String)>,
)
    requires
        call_ensures(SendReport::log_lines, (report, mtu, label), lines),
    ensures
        lines@.len() == (if report.header_shed {
            1int
        } else {
            0int
        }) + (if report.result is Undeliverable {
            1int
        } else {
            0int
        }),
        report.header_shed ==> lines@[0].0 is Warn && lines@[0].1@
            == "packet header exceeds datagram MTU ("@ + mtu_text(mtu) + " B) for "@ + label@
            + "; shedding bulk header fields to keep items"@,
        report.result is Undeliverable ==> lines@.last().0 is Error,
        report.result is Undeliverable && report.dropped == 0 ==> lines@.last().1@
            == "packet undeliverable: item-less shed header exceeds datagram MTU ("@ + mtu_text(
            mtu,
        ) + " B) for "@ + label@ + "; dropping"@,
        report.result is Undeliverable && report.dropped > 0 ==> lines@.last().1@
            == "packet undeliverable: scalar header + 1 item exceeds datagram MTU ("@ + mtu_text(
            mtu,
        ) + " B) for "@ + label@ + "; dropping "@ + text::decimal(report.dropped as nat)
            + " item(s)"@,
        mtu is Some ==> mtu_text(mtu) == "Some("@ + text::decimal(mtu->Some_0 as nat) + ")"@,
        mtu is None ==> mtu_text(mtu) == "None"@,
{
    let views = line_views(lines@);
    assert(views.len() == lines@.len());
    if lines@.len() > 0 {
        assert(views[0] == (lines@[0].0, lines@[0].1@));
        assert(views.last() == (lines@.last().0, lines@.last().1@));
    }
}

/// A report counts as lost the items that were not delivered, where the packet
/// was given up on, and none otherwise.
pub proof fn law_a_report_counts_what_was_lost(report: SendReport, s: Progress, total: nat)
    requires
        report.ended_in(s, total),
    ensures
        report.header_shed == s.shed,
        report.result is Undeliverable ==> s.at + report.dropped == total,
        !(report.result is Undeliverable) ==> report.dropped == 0,
{
}

/// A chunk carries the next items in order, as many as its size allows and are
/// left. With its header shed it is a shed packet of them; else it is the packet
/// rebuilt with them, the first as the header and the others as continuations.
pub proof fn law_a_chunk_carries_the_next_items<P: Chunkable, E: FnMut(&P) -> Vec<u8>>(
    packet: P,
    encode: E,
    s: Progress,
    bytes: Seq<u8>,
) -> (sub: P)
    requires
        carries(packet, encode, s, bytes),
        s.at <= packet.item_list().len(),
    ensures
        exists|v: Vec<u8>| v@ == bytes && #[trigger] call_ensures(encode, (&sub,), v),
        ({
            let items = packet.item_list();
            let upto = if s.size <= items.len() - s.at {
                (s.at + s.size) as int
            } else {
                items.len() as int
            };
            let chunk = items.subrange(s.at as int, upto);
            &&& s.shed ==> packet.is_shed(chunk, sub)
            &&& !s.shed ==> packet.is_rebuild(chunk, s.first, sub)
        }),
{
    let items = packet.item_list();
    let chunk = items.subrange(s.at as int, (s.at + s.width(items.len())) as int);
    choose|sub: P|
        #![trigger encodes(encode, sub, bytes)]
        encodes(encode, sub, bytes) && if s.shed {
            packet.is_shed(chunk, sub)
        } else {
            packet.is_rebuild(chunk, s.first, sub)
        }
}

/// Every datagram of a splitting is the chunk that was due when it was sent:
/// the one that the outcomes before it lead to.
pub proof fn law_every_datagram_was_due<P: Chunkable, E: FnMut(&P) -> Vec<u8>>(
    packet: P,
    encode: E,
    s: Progress,
    attempts: Seq<Attempt>,
    result: ChunkResult,
    hint: HintView,
    j: int,
)
    requires
        follows(packet, encode, s, attempts, result, hint),
        0 <= j < attempts.len(),
    ensures
        carries(
            packet,
            encode,
            state_after(s, packet.item_list().len(), outcomes(attempts).take(j)),
            attempts[j].bytes,
        ),
    decreases j,
{
    let total = packet.item_list().len();
    let os = outcomes(attempts);
    if j == 0 {
        assert(os.take(0).len() == 0);
    } else {
        let tail = attempts.drop_first();
        match advance(s, total, attempts[0].outcome) {
            Next::Done(_, _) => {},
            Next::More(t) => {
                law_every_datagram_was_due(packet, encode, t, tail, result, hint, j - 1);
                assert(outcomes(tail).take(j - 1) =~= os.take(j).drop_first());
                assert(os.take(j)[0] == attempts[0].outcome);
                lemma_state_after_first(s, total, os.take(j));
                assert(tail[j - 1] == attempts[j]);
            },
        }
    }
}

/// How a splitting ends: delivered where the last item was accepted, with what
/// was learned on the way.
pub proof fn law_how_a_splitting_ends<P: Chunkable, E: FnMut(&P) -> Vec<u8>>(
    packet: P,
    encode: E,
    s: Progress,
    attempts: Seq<Attempt>,
    result: ChunkResult,
    hint: HintView,
)
    requires
        follows(packet, encode, s, attempts, result, hint),
    ensures
        ({
            let total = packet.item_list().len();
            let end = state_after(s, total, outcomes(attempts));
            &&& result is Delivered <==> end.at >= total
            &&& result is Delivered ==> hint == end.hint
            &&& result is Closed ==> hint == end.hint
        }),
    decreases attempts.len(),
{
    let total = packet.item_list().len();
    let os = outcomes(attempts);
    if s.at >= total {
        assert(os.len() == 0);
    } else {
        assert(os.drop_first() =~= outcomes(attempts.drop_first()));
        assert(os[0] == attempts[0].outcome);
        match advance(s, total, attempts[0].outcome) {
            Next::Done(_, _) => {
                reveal_with_fuel(state_after, 2);
                assert(os.last() == os[0]);
                assert(os.drop_last() =~= Seq::<SendOutcome>::empty());
            },
            Next::More(t) => {
                law_how_a_splitting_ends(packet, encode, t, attempts.drop_first(), result, hint);
                lemma_state_after_first(s, total, os);
            },
        }
    }
}

/// What sending a packet whole teaches: that as many items fit, where it was
/// accepted, and nothing where the connection was lost; an empty packet teaches
/// nothing. One that is too large is split, knowing that.
pub proof fn law_what_a_whole_send_teaches<P: Chunkable, E: FnMut(&P) -> Vec<u8>>(
    packet: P,
    encode: E,
    before: HintView,
    attempts: Seq<Attempt>,
    result: ChunkResult,
    hint: HintView,
)
    requires
        sends(packet, encode, before, attempts, result, hint),
        before.ceiling is None || before.ceiling->Some_0 > packet.item_list().len(),
    ensures
        attempts[0].outcome is Sent && packet.item_list().len() > 0 ==> hint == before.after_fit(
            packet.item_list().len(),
        ),
        attempts[0].outcome is Sent && packet.item_list().len() == 0 ==> hint == before,
        attempts[0].outcome is Closed ==> hint == before,
        attempts[0].outcome is TooLarge && packet.item_list().len() > 0 ==> follows(
            packet,
            encode,
            opening(
                before.after_reject(packet.item_list().len()),
                packet.item_list().len(),
            ),
            attempts.drop_first(),
            result,
            hint,
        ),
        attempts[0].outcome is TooLarge && packet.item_list().len() == 0 ==> attempts.len() == 2
            && hint == before && (result is Delivered <==> attempts[1].outcome is Sent) && (
        result is Closed <==> attempts[1].outcome is Closed) && exists|sub: P|
            #![trigger encodes(encode, sub, attempts[1].bytes)]
            encodes(encode, sub, attempts[1].bytes) && packet.is_shed(Seq::empty(), sub),
{
    if attempts[0].outcome == SendOutcome::TooLarge {
        assert(attempts.drop_first().len() + 1 == attempts.len());
        if packet.item_list().len() == 0 {
            assert(attempts.drop_first()[0] == attempts[1]);
        }
    }
}

/// Where splitting starts: at the first item, with the header in place, at the
/// size that the hint suggests.
pub proof fn law_splitting_starts_at_the_front(h: HintView, total: nat)
    ensures
        opening(h, total).at == 0,
        opening(h, total).first && !opening(h, total).shed,
        opening(h, total).size == h.start(total),
        opening(h, total).hint == h,
{
}

/// What sending does to a sink and a hint: what the sink got before stays, at
/// least one datagram goes behind it, the last of them found the connection
/// gone exactly where the result says so, and one that is accepted whole is the
/// only one. A hint that knows no limit has the whole packet tried first.
pub proof fn law_what_sending_does<P: Chunkable, S: DatagramSink, E: FnMut(&P) -> Vec<u8>>(
    packet: &P,
    encode: E,
    result: ChunkResult,
)
    requires
        forall|p: &P| #[trigger] call_requires(encode, (p,)),
    ensures
        forall|sink: &mut S, hint: &mut ChunkHint| #[trigger]
            call_ensures(send_chunked::<P, S, E>, (sink, packet, encode, hint), result) ==> {
                let (before, after) = (sink.history(), (*final(sink)).history());
                let n = before.len() as int;
                &&& after.len() > n
                &&& after.take(n) == before
                &&& hint@.ceiling is None ==> exists|v: Vec<u8>|
                    v@ == after[n].bytes && #[trigger] call_ensures(encode, (packet,), v)
                &&& hint@.ceiling is None && after[n].outcome is Sent ==> after.len() == n + 1
                    && result is Delivered
                &&& after[n].outcome is Closed ==> after.len() == n + 1 && result is Closed
            },
{
    assert forall|sink: &mut S, hint: &mut ChunkHint| #[trigger]
        call_ensures(send_chunked::<P, S, E>, (sink, packet, encode, hint), result) implies {
        let (before, after) = (sink.history(), (*final(sink)).history());
        let n = before.len() as int;
        &&& after.len() > n
        &&& after.take(n) == before
        &&& hint@.ceiling is None ==> exists|v: Vec<u8>|
            v@ == after[n].bytes && #[trigger] call_ensures(encode, (packet,), v)
        &&& hint@.ceiling is None && after[n].outcome is Sent ==> after.len() == n + 1
            && result is Delivered
        &&& after[n].outcome is Closed ==> after.len() == n + 1 && result is Closed
    } by {
        let (before, after) = (sink.history(), (*final(sink)).history());
        let left = (*final(hint))@;
        let attempts = choose|attempts: Seq<Attempt>|
            after == before + attempts && #[trigger] sends(
                *packet,
                encode,
                hint@,
                attempts,
                result,
                left,
            );
        assert(sends(*packet, encode, hint@, attempts, result, left));
        law_the_whole_packet_goes_first(*packet, encode, hint@, attempts, result, left);
        assert(after.take(before.len() as int) =~= before);
        assert(after[before.len() as int] == attempts[0]);
    }
}

/// What a reported send says: it sends as any does, and the report tells how
/// the sending went.
pub proof fn law_a_report_is_of_its_send<P: Chunkable, S: DatagramSink, E: FnMut(&P) -> Vec<u8>>(
    packet: &P,
    encode: E,
    report: SendReport,
)
    requires
        forall|p: &P| #[trigger] call_requires(encode, (p,)),
    ensures
        forall|sink: &mut S, hint: &mut ChunkHint| #[trigger]
            call_ensures(send_reported::<P, S, E>, (sink, packet, encode, hint), report) ==> {
                let (before, after) = (sink.history(), (*final(sink)).history());
                let n = before.len() as int;
                &&& after.len() > n
                &&& after.take(n) == before
                &&& hint@.ceiling is None && after[n].outcome is Sent ==> report.result
                    is Delivered && !report.header_shed && report.dropped == 0
                &&& !(report.result is Undeliverable) ==> report.dropped == 0
                &&& report.dropped <= packet.item_list().len()
            },
{
    assert forall|sink: &mut S, hint: &mut ChunkHint| #[trigger]
        call_ensures(send_reported::<P, S, E>, (sink, packet, encode, hint), report) implies {
        let (before, after) = (sink.history(), (*final(sink)).history());
        let n = before.len() as int;
        &&& after.len() > n
        &&& after.take(n) == before
        &&& hint@.ceiling is None && after[n].outcome is Sent ==> report.result is Delivered
            && !report.header_shed && report.dropped == 0
        &&& report.dropped <= packet.item_list().len()
    } by {
        let (before, after) = (sink.history(), (*final(sink)).history());
        let left = (*final(hint))@;
        let total = packet.item_list().len();
        let attempts = choose|attempts: Seq<Attempt>|
            after == before + attempts && #[trigger] sends(
                *packet,
                encode,
                hint@,
                attempts,
                report.result,
                left,
            ) && report.tells_of(hint@, total, outcomes(attempts));
        assert(sends(*packet, encode, hint@, attempts, report.result, left));
        law_the_whole_packet_goes_first(*packet, encode, hint@, attempts, report.result, left);
        assert(after.take(before.len() as int) =~= before);
        assert(after[before.len() as int] == attempts[0]);
        assert(outcomes(attempts)[0] == attempts[0].outcome);
    }
}

proof fn lemma_lost_in<P: Chunkable, E: FnMut(&P) -> Vec<u8>>(
    packet: P,
    encode: E,
    s: Progress,
    attempts: Seq<Attempt>,
    hint: HintView,
)
    requires
        follows(packet, encode, s, attempts, ChunkResult::Undeliverable, hint),
        s.size > 0,
        s.at <= packet.item_list().len(),
    ensures
        state_after(s, packet.item_list().len(), outcomes(attempts)).shed,
        state_after(s, packet.item_list().len(), outcomes(attempts)).at
            < packet.item_list().len(),
{
    let total = packet.item_list().len();
    let os = outcomes(attempts);
    let lost = ChunkResult::Undeliverable;
    law_giving_up_is_the_last_resort(packet, encode, s, attempts, lost, hint);
    law_how_a_splitting_ends(packet, encode, s, attempts, lost, hint);
    let n = attempts.len() - 1;
    assert(os.take(n) =~= os.drop_last());
    law_header_and_shedding_latch(s, total, os, n);
}

/// A packet with items that could not be delivered is reported as such: its
/// header was shed, and at least one item was lost.
pub proof fn law_a_lost_packet_is_reported<P: Chunkable, E: FnMut(&P) -> Vec<u8>>(
    packet: P,
    encode: E,
    before: HintView,
    attempts: Seq<Attempt>,
    hint: HintView,
    report: SendReport,
)
    requires
        sends(packet, encode, before, attempts, report.result, hint),
        report.tells_of(before, packet.item_list().len(), outcomes(attempts)),
        packet.item_list().len() > 0,
        report.result is Undeliverable,
    ensures
        report.header_shed,
        0 < report.dropped <= packet.item_list().len(),
{
    let total = packet.item_list().len();
    if before.whole_is_doomed(total) {
        law_where_splitting_starts(before, total);
        lemma_lost_in(packet, encode, opening(before, total), attempts, hint);
    } else {
        let known = before.after_reject(total);
        law_where_splitting_starts(known, total);
        lemma_lost_in(packet, encode, opening(known, total), attempts.drop_first(), hint);
        assert(outcomes(attempts).drop_first() =~= outcomes(attempts.drop_first()));
        assert(outcomes(attempts)[0] == attempts[0].outcome);
    }
}

} // verus!
