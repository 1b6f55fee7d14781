//! Two-peer deterministic lockstep transport.
//!
//! Lockstep has no server and sends no state at all: both peers run the
//! *same* simulation from the same seed, exchange only their inputs, and a
//! tick may not run until both peers' inputs for it are in hand. Any
//! divergence in the sim is permanent and silent. Hence `Checksum`.
//!
//! * **No floats** in any message. Quantise anything continuous to a
//!   fixed-point integer before it goes on the wire.
//! * The whole protocol is five messages of fixed shape, each framed by a
//!   `u16` length. Everything multi-byte is big-endian.
//! * **Inputs are never dropped.** One missing input frame is a peer that can
//!   never advance again.
//!
//! # Input delay — why the local player also waits
//!
//! Input sampled at tick N is transmitted immediately but both peers apply it
//! at tick `N + delay`, which buys `delay` ticks of one-way slack. The local
//! input is buffered rather than applied at once: applying local input
//! immediately and remote input late would desync instantly.
//!
//! # Sockets
//!
//! The sockets themselves are driven from outside. What to do with what
//! happened on them is decided here: [`SocketScript`] for the connecting and
//! writing side, [`reader_step`] for the reading side, [`LinkState`] for what
//! the game sees.

use crate::text;
use vstd::arithmetic::power2::*;
use vstd::prelude::*;
use vstd::string::*;
use vstd::utf8::*;

verus! {

/// Bumped whenever the wire format changes shape.
pub const PROTOCOL_VERSION: u32 = 1;

/// Ticks between sampling an input and applying it. Three ticks at 60 Hz is
/// 50 ms of one-way slack.
pub const DEFAULT_INPUT_DELAY: u32 = 3;

/// Cap on a `Chat` payload. Bounded so a hostile or broken peer cannot make
/// us allocate arbitrarily from a length prefix we have not validated.
pub const MAX_CHAT_BYTES: usize = 1024;

/// Largest frame we will accept. Chat is the only variable-length message
/// and it is capped below this; anything larger is a desynchronised stream or
/// a hostile peer.
pub const MAX_FRAME_BYTES: usize = 1088;

pub const TAG_HELLO: u8 = 1;

pub const TAG_INPUT: u8 = 2;

pub const TAG_CHECKSUM: u8 = 3;

pub const TAG_CHAT: u8 = 4;

pub const TAG_BYE: u8 = 5;

// ---------------------------------------------------------------------------
// Big-endian numbers.
// ---------------------------------------------------------------------------

/// The `n` low bytes of `v`, most significant first.
pub open spec fn be_bytes(v: nat, n: nat) -> Seq<u8>
    decreases n,
{
    if n == 0 {
        Seq::empty()
    } else {
        be_bytes(v / 256, (n - 1) as nat).push((v % 256) as u8)
    }
}

/// The number that a byte string spells, most significant byte first.
pub open spec fn from_be(s: Seq<u8>) -> nat
    decreases s.len(),
{
    if s.len() == 0 {
        0
    } else {
        256 * from_be(s.drop_last()) + s.last() as nat
    }
}

proof fn lemma_be_len(v: nat, n: nat)
    ensures
        be_bytes(v, n).len() == n,
    decreases n,
{
    if n > 0 {
        lemma_be_len(v / 256, (n - 1) as nat);
    }
}

proof fn lemma_from_be_bound(s: Seq<u8>)
    ensures
        from_be(s) < pow2(8 * s.len()),
    decreases s.len(),
{
    lemma2_to64();
    if s.len() > 0 {
        lemma_from_be_bound(s.drop_last());
        lemma_pow2_adds(8 * (s.len() - 1) as nat, 8);
    }
}

/// A number written in `n` bytes reads back as itself.
pub proof fn law_be_round_trip(v: nat, n: nat)
    requires
        v < pow2(8 * n),
    ensures
        be_bytes(v, n).len() == n,
        from_be(be_bytes(v, n)) == v,
    decreases n,
{
    lemma2_to64();
    lemma_be_len(v, n);
    if n > 0 {
        lemma_pow2_adds((8 * (n - 1)) as nat, 8);
        let p = pow2((8 * (n - 1)) as nat);
        assert(v / 256 < p) by (nonlinear_arith)
            requires
                v < p * 256,
        ;
        law_be_round_trip(v / 256, (n - 1) as nat);
        assert(be_bytes(v, n).drop_last() =~= be_bytes(v / 256, (n - 1) as nat));
    }
}

fn push_be(out: &mut Vec<u8>, v: u64, n: u8)
    ensures
        final(out)@ == old(out)@ + be_bytes(v as nat, n as nat),
    decreases n,
{
    if n > 0 {
        push_be(out, v / 256, n - 1);
        out.push((v % 256) as u8);
    }
}

// ---------------------------------------------------------------------------
// Messages.
// ---------------------------------------------------------------------------

/// One protocol message. Deliberately small and closed: every variant is
/// something both peers must agree on to stay in lockstep.
#[derive(Debug, PartialEq, Eq)]
pub enum Message {
    /// Handshake, sent by both sides immediately on connect.
    Hello { protocol_version: u32, world_seed: u64, input_delay: u32 },
    /// The hot path: this peer's input for `tick`. `bits` is opaque to the
    /// engine — the game defines the bitfield.
    Input { tick: u32, bits: u32 },
    /// A hash of the sender's world state at `tick`, for desync detection.
    Checksum { tick: u32, hash: u64 },
    /// Out-of-band text. Not part of the simulation and not tick-ordered.
    Chat { text: String },
    /// Clean shutdown, so the peer can distinguish "quit" from "crashed".
    Bye,
}

pub enum MessageView {
    Hello { protocol_version: u32, world_seed: u64, input_delay: u32 },
    Input { tick: u32, bits: u32 },
    Checksum { tick: u32, hash: u64 },
    Chat { text: Seq<char> },
    Bye,
}

impl View for Message {
    type V = MessageView;

    open spec fn view(&self) -> MessageView {
        match self {
            Message::Hello { protocol_version, world_seed, input_delay } => MessageView::Hello {
                protocol_version: *protocol_version,
                world_seed: *world_seed,
                input_delay: *input_delay,
            },
            Message::Input { tick, bits } => MessageView::Input { tick: *tick, bits: *bits },
            Message::Checksum { tick, hash } => MessageView::Checksum { tick: *tick, hash: *hash },
            Message::Chat { text } => MessageView::Chat { text: text@ },
            Message::Bye => MessageView::Bye,
        }
    }
}

impl Clone for Message {
    fn clone(&self) -> (r: Self)
        ensures
            r == *self,
    {
        match self {
            Message::Hello { protocol_version, world_seed, input_delay } => Message::Hello {
                protocol_version: *protocol_version,
                world_seed: *world_seed,
                input_delay: *input_delay,
            },
            Message::Input { tick, bits } => Message::Input { tick: *tick, bits: *bits },
            Message::Checksum { tick, hash } => Message::Checksum { tick: *tick, hash: *hash },
            Message::Chat { text } => Message::Chat { text: text.clone() },
            Message::Bye => Message::Bye,
        }
    }
}

/// Wire encoding failed. Only reachable by handing `Chat` more than
/// [`MAX_CHAT_BYTES`]; every other variant is fixed-size and infallible.
#[derive(Copy, Clone, Debug, PartialEq, Eq, Structural)]
pub enum EncodeError {
    ChatTooLong(usize),
}

impl EncodeError {
    /// The sentence shown for each error.
    pub open spec fn text(self) -> Seq<char> {
        match self {
            EncodeError::ChatTooLong(n) => "chat message is "@ + text::decimal(n as nat)
                + " bytes, limit is "@ + text::decimal(MAX_CHAT_BYTES as nat),
        }
    }

    /// A human-readable description of the error.
    pub fn message(&self) -> (s: String)
        ensures
            s@ == self.text(),
    {
        match self {
            EncodeError::ChatTooLong(n) => {
                let mut s = "chat message is ".to_owned();
                text::push_decimal(&mut s, *n as u128);
                s.append(" bytes, limit is ");
                text::push_decimal(&mut s, MAX_CHAT_BYTES as u128);
                s
            },
        }
    }
}

/// A frame did not decode. Every variant means the stream is no longer
/// trustworthy, so the only correct response is to drop the connection.
#[derive(Copy, Clone, Debug, PartialEq, Eq, Structural)]
pub enum DecodeError {
    /// Tag byte is not a known message type.
    UnknownTag(u8),
    /// Frame ended mid-field. Expected at least `need` bytes, had `had`.
    Truncated { need: usize, had: usize },
    /// Trailing bytes after a complete message: our idea of the layout and
    /// the sender's disagree.
    TrailingBytes(usize),
    /// `Chat` payload exceeded [`MAX_CHAT_BYTES`].
    ChatTooLong(usize),
    /// `Chat` payload was not valid UTF-8.
    BadUtf8,
}

impl DecodeError {
    /// The sentence shown for each error.
    pub open spec fn text(self) -> Seq<char> {
        match self {
            DecodeError::UnknownTag(t) => "unknown message tag "@ + text::decimal(t as nat),
            DecodeError::Truncated { need, had } => "truncated frame: needed "@ + text::decimal(
                need as nat,
            ) + " bytes, had "@ + text::decimal(had as nat),
            DecodeError::TrailingBytes(n) => text::decimal(n as nat)
                + " trailing bytes after message"@,
            DecodeError::ChatTooLong(n) => "chat payload "@ + text::decimal(n as nat)
                + " bytes exceeds limit"@,
            DecodeError::BadUtf8 => "chat payload was not valid UTF-8"@,
        }
    }

    /// A human-readable description of the error.
    pub fn message(&self) -> (s: String)
        ensures
            s@ == self.text(),
    {
        match self {
            DecodeError::UnknownTag(t) => {
                let mut s = "unknown message tag ".to_owned();
                text::push_decimal(&mut s, *t as u128);
                s
            },
            DecodeError::Truncated { need, had } => {
                let mut s = "truncated frame: needed ".to_owned();
                text::push_decimal(&mut s, *need as u128);
                s.append(" bytes, had ");
                text::push_decimal(&mut s, *had as u128);
                s
            },
            DecodeError::TrailingBytes(n) => {
                let mut s = String::new();
                text::push_decimal(&mut s, *n as u128);
                s.append(" trailing bytes after message");
                proof {
                    assert(Seq::<char>::empty() + text::decimal(*n as nat) =~= text::decimal(
                        *n as nat,
                    ));
                }
                s
            },
            DecodeError::ChatTooLong(n) => {
                let mut s = "chat payload ".to_owned();
                text::push_decimal(&mut s, *n as u128);
                s.append(" bytes exceeds limit");
                s
            },
            DecodeError::BadUtf8 => "chat payload was not valid UTF-8".to_owned(),
        }
    }
}

// ---------------------------------------------------------------------------
// The wire format.
// ---------------------------------------------------------------------------

/// A message body: a tag, then the fields, most significant byte first.
pub open spec fn body_bytes(m: MessageView) -> Seq<u8> {
    match m {
        MessageView::Hello { protocol_version, world_seed, input_delay } => seq![TAG_HELLO]
            + be_bytes(protocol_version as nat, 4) + be_bytes(world_seed as nat, 8) + be_bytes(
            input_delay as nat,
            4,
        ),
        MessageView::Input { tick, bits } => seq![TAG_INPUT] + be_bytes(tick as nat, 4) + be_bytes(
            bits as nat,
            4,
        ),
        MessageView::Checksum { tick, hash } => seq![TAG_CHECKSUM] + be_bytes(tick as nat, 4)
            + be_bytes(hash as nat, 8),
        MessageView::Chat { text } => seq![TAG_CHAT] + be_bytes(encode_utf8(text).len(), 2)
            + encode_utf8(text),
        MessageView::Bye => seq![TAG_BYE],
    }
}

/// The length of a chat message that is too long to send.
pub open spec fn too_long(m: MessageView) -> Option<nat> {
    match m {
        MessageView::Chat { text } => if encode_utf8(text).len() > MAX_CHAT_BYTES {
            Some(encode_utf8(text).len())
        } else {
            None
        },
        _ => None,
    }
}

/// A complete frame: the length of the body in two bytes, then the body.
pub open spec fn frame_bytes(m: MessageView) -> Seq<u8> {
    be_bytes(body_bytes(m).len(), 2) + body_bytes(m)
}

/// Fields of the given widths, one after the other from `at` on: their
/// values, and where they end. The first field that does not fit is the
/// error.
pub open spec fn parse_fields(buf: Seq<u8>, at: nat, widths: Seq<nat>) -> Result<
    (Seq<nat>, nat),
    DecodeError,
>
    decreases widths.len(),
{
    if widths.len() == 0 {
        Ok((Seq::empty(), at))
    } else if at + widths[0] > buf.len() {
        Err(
            DecodeError::Truncated {
                need: widths[0] as usize,
                had: (buf.len() - at) as usize,
            },
        )
    } else {
        let first = from_be(buf.subrange(at as int, (at + widths[0]) as int));
        match parse_fields(buf, at + widths[0], widths.drop_first()) {
            Err(e) => Err(e),
            Ok((rest, end)) => Ok((seq![first] + rest, end)),
        }
    }
}

/// A message that ends at `end`. Every byte must have been used: bytes left
/// over mean that the sender wrote a layout we do not know.
pub open spec fn whole(buf: Seq<u8>, m: MessageView, end: nat) -> Result<MessageView, DecodeError> {
    if end < buf.len() {
        Err(DecodeError::TrailingBytes((buf.len() - end) as usize))
    } else {
        Ok(m)
    }
}

/// The text of a chat body.
pub open spec fn parse_chat(buf: Seq<u8>) -> Result<MessageView, DecodeError> {
    match parse_fields(buf, 1, seq![2]) {
        Err(e) => Err(e),
        Ok((v, at)) => {
            let n = v[0];
            if n > MAX_CHAT_BYTES {
                Err(DecodeError::ChatTooLong(n as usize))
            } else if at + n > buf.len() {
                Err(DecodeError::Truncated { need: n as usize, had: (buf.len() - at) as usize })
            } else {
                let bytes = buf.subrange(at as int, (at + n) as int);
                if !valid_utf8(bytes) {
                    Err(DecodeError::BadUtf8)
                } else {
                    whole(buf, MessageView::Chat { text: decode_utf8(bytes) }, at + n)
                }
            }
        },
    }
}

/// What a frame body means.
pub open spec fn parse_body(buf: Seq<u8>) -> Result<MessageView, DecodeError> {
    if buf.len() == 0 {
        Err(DecodeError::Truncated { need: 1, had: 0 })
    } else if buf[0] == TAG_HELLO {
        match parse_fields(buf, 1, seq![4, 8, 4]) {
            Err(e) => Err(e),
            Ok((v, end)) => whole(
                buf,
                MessageView::Hello {
                    protocol_version: v[0] as u32,
                    world_seed: v[1] as u64,
                    input_delay: v[2] as u32,
                },
                end,
            ),
        }
    } else if buf[0] == TAG_INPUT {
        match parse_fields(buf, 1, seq![4, 4]) {
            Err(e) => Err(e),
            Ok((v, end)) => whole(
                buf,
                MessageView::Input { tick: v[0] as u32, bits: v[1] as u32 },
                end,
            ),
        }
    } else if buf[0] == TAG_CHECKSUM {
        match parse_fields(buf, 1, seq![4, 8]) {
            Err(e) => Err(e),
            Ok((v, end)) => whole(
                buf,
                MessageView::Checksum { tick: v[0] as u32, hash: v[1] as u64 },
                end,
            ),
        }
    } else if buf[0] == TAG_CHAT {
        parse_chat(buf)
    } else if buf[0] == TAG_BYE {
        whole(buf, MessageView::Bye, 1)
    } else {
        Err(DecodeError::UnknownTag(buf[0]))
    }
}

/// Cursor over a frame body. Every read is bounds-checked, because the bytes
/// come from the network.
struct Cursor<'a> {
    buf: &'a [u8],
    pos: usize,
}

impl<'a> Cursor<'a> {
    spec fn wf(&self) -> bool {
        self.pos <= self.buf@.len()
    }

    fn take(&mut self, n: usize) -> (res: Result<&'a [u8], DecodeError>)
        requires
            old(self).wf(),
        ensures
            final(self).wf(),
            final(self).buf == old(self).buf,
            match res {
                Ok(s) => {
                    &&& old(self).pos + n <= old(self).buf@.len()
                    &&& s@ == old(self).buf@.subrange(old(self).pos as int, old(self).pos + n)
                    &&& final(self).pos == old(self).pos + n
                },
                Err(e) => {
                    &&& old(self).pos + n > old(self).buf@.len()
                    &&& e == (DecodeError::Truncated {
                        need: n,
                        had: (old(self).buf@.len() - old(self).pos) as usize,
                    })
                },
            },
    {
        let had: usize = self.buf.len() - self.pos;
        if n > had {
            return Err(DecodeError::Truncated { need: n, had });
        }
        let end: usize = self.pos + n;
        let out: &'a [u8] = vstd::slice::slice_subrange(self.buf, self.pos, end);
        self.pos = end;
        Ok(out)
    }

    /// A number of `n` bytes.
    fn number(&mut self, n: usize) -> (res: Result<u64, DecodeError>)
        requires
            old(self).wf(),
            n <= 8,
        ensures
            final(self).wf(),
            final(self).buf == old(self).buf,
            match res {
                Ok(v) => {
                    &&& old(self).pos + n <= old(self).buf@.len()
                    &&& v == from_be(
                        old(self).buf@.subrange(old(self).pos as int, old(self).pos + n),
                    )
                    &&& v < pow2((8 * n) as nat)
                    &&& final(self).pos == old(self).pos + n
                },
                Err(e) => {
                    &&& old(self).pos + n > old(self).buf@.len()
                    &&& e == (DecodeError::Truncated {
                        need: n,
                        had: (old(self).buf@.len() - old(self).pos) as usize,
                    })
                },
            },
    {
        let bytes: &[u8] = match self.take(n) {
            Ok(b) => b,
            Err(e) => {
                return Err(e);
            },
        };
        let mut v: u64 = 0;
        let mut i: usize = 0;
        while i < n
            invariant
                i <= n <= 8,
                bytes@.len() == n,
                v == from_be(bytes@.take(i as int)),
            decreases n - i,
        {
            proof {
                lemma_from_be_bound(bytes@.take(i as int));
                lemma2_to64();
                lemma2_to64_rest();
                if i < 7 {
                    lemma_pow2_strictly_increases((8 * i) as nat, 56);
                }
                assert(bytes@.take(i + 1).drop_last() =~= bytes@.take(i as int));
            }
            v = v * 256 + bytes[i] as u64;
            i = i + 1;
        }
        proof {
            assert(bytes@.take(n as int) =~= bytes@);
            lemma_from_be_bound(bytes@);
        }
        Ok(v)
    }

    /// Every byte must be consumed.
    fn finish(&self) -> (res: Result<(), DecodeError>)
        requires
            self.wf(),
        ensures
            match res {
                Ok(()) => self.pos == self.buf@.len(),
                Err(e) => {
                    &&& self.pos < self.buf@.len()
                    &&& e == DecodeError::TrailingBytes((self.buf@.len() - self.pos) as usize)
                },
            },
    {
        let left: usize = self.buf.len() - self.pos;
        if left != 0 {
            return Err(DecodeError::TrailingBytes(left));
        }
        Ok(())
    }
}

/// The layouts, one field after the other.
proof fn lemma_layouts(buf: Seq<u8>)
    ensures
        ({
            let a = seq![4nat, 8, 4];
            let b = seq![4nat, 4];
            let c = seq![4nat, 8];
            let d = seq![2nat];
            &&& a.drop_first() == seq![8nat, 4] && seq![8nat, 4].drop_first() == seq![4nat]
            &&& seq![4nat].drop_first() == Seq::<nat>::empty()
            &&& b.drop_first() == seq![4nat] && c.drop_first() == seq![8nat]
            &&& seq![8nat].drop_first() == Seq::<nat>::empty()
            &&& d.drop_first() == Seq::<nat>::empty()
        }),
{
}

impl Message {
    /// Encode the message body — the payload *without* the length prefix.
    /// [`encode_frame`](Message::encode_frame) adds that.
    pub fn encode_body(&self) -> (res: Result<Vec<u8>, EncodeError>)
        ensures
            match res {
                Ok(bytes) => too_long(self@) is None && bytes@ == body_bytes(self@),
                Err(EncodeError::ChatTooLong(n)) => too_long(self@) == Some(n as nat),
            },
    {
        let mut out: Vec<u8> = Vec::with_capacity(16);
        match self {
            Message::Hello { protocol_version, world_seed, input_delay } => {
                out.push(TAG_HELLO);
                push_be(&mut out, *protocol_version as u64, 4);
                push_be(&mut out, *world_seed, 8);
                push_be(&mut out, *input_delay as u64, 4);
            },
            Message::Input { tick, bits } => {
                out.push(TAG_INPUT);
                push_be(&mut out, *tick as u64, 4);
                push_be(&mut out, *bits as u64, 4);
            },
            Message::Checksum { tick, hash } => {
                out.push(TAG_CHECKSUM);
                push_be(&mut out, *tick as u64, 4);
                push_be(&mut out, *hash, 8);
            },
            Message::Chat { text } => {
                let bytes: &[u8] = text.as_str().as_bytes();
                if bytes.len() > MAX_CHAT_BYTES {
                    return Err(EncodeError::ChatTooLong(bytes.len()));
                }
                out.push(TAG_CHAT);
                push_be(&mut out, bytes.len() as u64, 2);
                out.extend_from_slice(bytes);
            },
            Message::Bye => {
                out.push(TAG_BYE);
            },
        }
        Ok(out)
    }

    /// Encode a complete frame: `u16` big-endian body length, then the body.
    /// The length prefix is what lets the reader find message boundaries in
    /// a TCP stream.
    pub fn encode_frame(&self) -> (res: Result<Vec<u8>, EncodeError>)
        ensures
            match res {
                Ok(bytes) => too_long(self@) is None && bytes@ == frame_bytes(self@),
                Err(EncodeError::ChatTooLong(n)) => too_long(self@) == Some(n as nat),
            },
    {
        let body = match self.encode_body() {
            Ok(b) => b,
            Err(e) => {
                return Err(e);
            },
        };
        let mut out: Vec<u8> = Vec::new();
        push_be(&mut out, body.len() as u64, 2);
        out.extend_from_slice(body.as_slice());
        Ok(out)
    }

    /// Decode a frame body (no length prefix).
    pub fn decode_body(buf: &[u8]) -> (res: Result<Message, DecodeError>)
        ensures
            match res {
                Ok(m) => parse_body(buf@) == Ok::<MessageView, DecodeError>(m@),
                Err(e) => parse_body(buf@) == Err::<MessageView, DecodeError>(e),
            },
    {
        proof {
            lemma_layouts(buf@);
            lemma2_to64();
            lemma2_to64_rest();
            reveal_with_fuel(parse_fields, 4);
        }
        let mut c = Cursor { buf, pos: 0 };
        let tag: u64 = match c.number(1) {
            Ok(v) => v,
            Err(e) => {
                return Err(e);
            },
        };
        let msg = if tag == TAG_HELLO as u64 {
            let protocol_version: u64 = match c.number(4) {
                Ok(v) => v,
                Err(e) => {
                    return Err(e);
                },
            };
            let world_seed: u64 = match c.number(8) {
                Ok(v) => v,
                Err(e) => {
                    return Err(e);
                },
            };
            let input_delay: u64 = match c.number(4) {
                Ok(v) => v,
                Err(e) => {
                    return Err(e);
                },
            };
            Message::Hello {
                protocol_version: protocol_version as u32,
                world_seed,
                input_delay: input_delay as u32,
            }
        } else if tag == TAG_INPUT as u64 {
            let tick: u64 = match c.number(4) {
                Ok(v) => v,
                Err(e) => {
                    return Err(e);
                },
            };
            let bits: u64 = match c.number(4) {
                Ok(v) => v,
                Err(e) => {
                    return Err(e);
                },
            };
            Message::Input { tick: tick as u32, bits: bits as u32 }
        } else if tag == TAG_CHECKSUM as u64 {
            let tick: u64 = match c.number(4) {
                Ok(v) => v,
                Err(e) => {
                    return Err(e);
                },
            };
            let hash: u64 = match c.number(8) {
                Ok(v) => v,
                Err(e) => {
                    return Err(e);
                },
            };
            Message::Checksum { tick: tick as u32, hash }
        } else if tag == TAG_CHAT as u64 {
            let n: u64 = match c.number(2) {
                Ok(v) => v,
                Err(e) => {
                    return Err(e);
                },
            };
            if n > MAX_CHAT_BYTES as u64 {
                return Err(DecodeError::ChatTooLong(n as usize));
            }
            let bytes: &[u8] = match c.take(n as usize) {
                Ok(b) => b,
                Err(e) => {
                    return Err(e);
                },
            };
            match text::string_from_utf8(vstd::slice::slice_to_vec(bytes)) {
                Some(text) => Message::Chat { text },
                None => {
                    return Err(DecodeError::BadUtf8);
                },
            }
        } else if tag == TAG_BYE as u64 {
            Message::Bye
        } else {
            return Err(DecodeError::UnknownTag(tag as u8));
        };
        match c.finish() {
            Ok(()) => Ok(msg),
            Err(e) => Err(e),
        }
    }
}

/// Every message that may be sent decodes to itself.
pub proof fn law_message_round_trip(m: MessageView)
    requires
        too_long(m) is None,
    ensures
        parse_body(body_bytes(m)) == Ok::<MessageView, DecodeError>(m),
        0 < body_bytes(m).len() <= MAX_FRAME_BYTES,
{
    lemma2_to64();
    lemma2_to64_rest();
    reveal_with_fuel(parse_fields, 4);
    let buf = body_bytes(m);
    lemma_layouts(buf);
    match m {
        MessageView::Hello { protocol_version, world_seed, input_delay } => {
            law_be_round_trip(protocol_version as nat, 4);
            law_be_round_trip(world_seed as nat, 8);
            law_be_round_trip(input_delay as nat, 4);
            assert(buf.subrange(1, 5) =~= be_bytes(protocol_version as nat, 4));
            assert(buf.subrange(5, 13) =~= be_bytes(world_seed as nat, 8));
            assert(buf.subrange(13, 17) =~= be_bytes(input_delay as nat, 4));
        },
        MessageView::Input { tick, bits } => {
            law_be_round_trip(tick as nat, 4);
            law_be_round_trip(bits as nat, 4);
            assert(buf.subrange(1, 5) =~= be_bytes(tick as nat, 4));
            assert(buf.subrange(5, 9) =~= be_bytes(bits as nat, 4));
        },
        MessageView::Checksum { tick, hash } => {
            law_be_round_trip(tick as nat, 4);
            law_be_round_trip(hash as nat, 8);
            assert(buf.subrange(1, 5) =~= be_bytes(tick as nat, 4));
            assert(buf.subrange(5, 13) =~= be_bytes(hash as nat, 8));
        },
        MessageView::Chat { text } => {
            let bytes = encode_utf8(text);
            law_be_round_trip(bytes.len(), 2);
            assert(buf.subrange(1, 3) =~= be_bytes(bytes.len(), 2));
            assert(buf.subrange(3, (3 + bytes.len()) as int) =~= bytes);
            encode_utf8_valid_utf8(text);
            encode_utf8_decode_utf8(text);
        },
        MessageView::Bye => {},
    }
}

/// An input frame is eleven bytes, whatever it carries.
pub proof fn law_input_frames_are_fixed_size(tick: u32, bits: u32)
    ensures
        frame_bytes(MessageView::Input { tick, bits }).len() == 11,
{
    lemma_be_len(tick as nat, 4);
    lemma_be_len(bits as nat, 4);
    lemma_be_len(9, 2);
}

// ---------------------------------------------------------------------------
// Handshake.
// ---------------------------------------------------------------------------

/// Why a handshake was refused. All are unrecoverable: a peer running a
/// different protocol or a different world cannot be made compatible.
#[derive(Clone, Copy, Debug, PartialEq, Eq, Structural)]
#[allow(inconsistent_fields)]
pub enum HandshakeError {
    /// Peer speaks a different wire format.
    VersionMismatch { ours: u32, theirs: u32 },
    /// Peer would generate a different world.
    SeedMismatch { ours: u64, theirs: u64 },
    /// Peers disagree on input delay, so they would apply the same input at
    /// different ticks.
    DelayMismatch { ours: u32, theirs: u32 },
    /// First message was not a `Hello`.
    NotHello,
}

impl HandshakeError {
    /// The sentence shown for each error.
    pub open spec fn text(self) -> Seq<char> {
        match self {
            HandshakeError::VersionMismatch { ours, theirs } => {
                "protocol version mismatch: ours "@ + text::decimal(ours as nat) + ", theirs "@
                    + text::decimal(theirs as nat)
            },
            HandshakeError::SeedMismatch { ours, theirs } => "world seed mismatch: ours "@
                + text::decimal(ours as nat) + ", theirs "@ + text::decimal(theirs as nat),
            HandshakeError::DelayMismatch { ours, theirs } => "input delay mismatch: ours "@
                + text::decimal(ours as nat) + ", theirs "@ + text::decimal(theirs as nat),
            HandshakeError::NotHello => "peer's first message was not a Hello"@,
        }
    }

    /// A human-readable description of the error.
    pub fn message(&self) -> (s: String)
        ensures
            s@ == self.text(),
    {
        match self {
            HandshakeError::VersionMismatch { ours, theirs } => {
                let mut s = "protocol version mismatch: ours ".to_owned();
                text::push_decimal(&mut s, *ours as u128);
                s.append(", theirs ");
                text::push_decimal(&mut s, *theirs as u128);
                s
            },
            HandshakeError::SeedMismatch { ours, theirs } => {
                let mut s = "world seed mismatch: ours ".to_owned();
                text::push_decimal(&mut s, *ours as u128);
                s.append(", theirs ");
                text::push_decimal(&mut s, *theirs as u128);
                s
            },
            HandshakeError::DelayMismatch { ours, theirs } => {
                let mut s = "input delay mismatch: ours ".to_owned();
                text::push_decimal(&mut s, *ours as u128);
                s.append(", theirs ");
                text::push_decimal(&mut s, *theirs as u128);
                s
            },
            HandshakeError::NotHello => "peer's first message was not a Hello".to_owned(),
        }
    }
}

/// What this peer will announce, and what it demands of the other.
#[derive(Clone, Copy, Debug, PartialEq, Eq, Structural)]
pub struct Handshake {
    pub protocol_version: u32,
    pub world_seed: u64,
    pub input_delay: u32,
}

/// What a peer's first message is answered. The version comes first: if the
/// format differs, the seed may not even be the field they meant to send.
pub open spec fn verdict(h: Handshake, peer: MessageView) -> Result<(), HandshakeError> {
    match peer {
        MessageView::Hello { protocol_version, world_seed, input_delay } => {
            if protocol_version != h.protocol_version {
                Err(
                    HandshakeError::VersionMismatch {
                        ours: h.protocol_version,
                        theirs: protocol_version,
                    },
                )
            } else if world_seed != h.world_seed {
                Err(HandshakeError::SeedMismatch { ours: h.world_seed, theirs: world_seed })
            } else if input_delay != h.input_delay {
                Err(HandshakeError::DelayMismatch { ours: h.input_delay, theirs: input_delay })
            } else {
                Ok(())
            }
        },
        _ => Err(HandshakeError::NotHello),
    }
}

impl Handshake {
    /// The greeting that announces this handshake.
    pub open spec fn greeting(self) -> MessageView {
        MessageView::Hello {
            protocol_version: self.protocol_version,
            world_seed: self.world_seed,
            input_delay: self.input_delay,
        }
    }

    /// Announce the current protocol version for `world_seed` at the default
    /// input delay.
    pub fn new(world_seed: u64) -> (h: Self)
        ensures
            h == (Handshake {
                protocol_version: PROTOCOL_VERSION,
                world_seed,
                input_delay: DEFAULT_INPUT_DELAY,
            }),
    {
        Handshake {
            protocol_version: PROTOCOL_VERSION,
            world_seed,
            input_delay: DEFAULT_INPUT_DELAY,
        }
    }

    /// The same handshake with another input delay.
    pub fn with_input_delay(self, delay: u32) -> (h: Self)
        ensures
            h == (Handshake { input_delay: delay, ..self }),
    {
        Handshake {
            protocol_version: self.protocol_version,
            world_seed: self.world_seed,
            input_delay: delay,
        }
    }

    /// The greeting that announces this handshake.
    pub fn to_message(self) -> (m: Message)
        ensures
            m@ == self.greeting(),
    {
        Message::Hello {
            protocol_version: self.protocol_version,
            world_seed: self.world_seed,
            input_delay: self.input_delay,
        }
    }

    /// Check the peer's `Hello` against ours.
    pub fn check(&self, peer: &Message) -> (res: Result<(), HandshakeError>)
        ensures
            res == verdict(*self, peer@),
    {
        match peer {
            Message::Hello { protocol_version, world_seed, input_delay } => {
                if *protocol_version != self.protocol_version {
                    return Err(
                        HandshakeError::VersionMismatch {
                            ours: self.protocol_version,
                            theirs: *protocol_version,
                        },
                    );
                }
                if *world_seed != self.world_seed {
                    return Err(
                        HandshakeError::SeedMismatch {
                            ours: self.world_seed,
                            theirs: *world_seed,
                        },
                    );
                }
                if *input_delay != self.input_delay {
                    return Err(
                        HandshakeError::DelayMismatch {
                            ours: self.input_delay,
                            theirs: *input_delay,
                        },
                    );
                }
                Ok(())
            },
            _ => Err(HandshakeError::NotHello),
        }
    }
}

/// Two peers accept each other exactly where they announce the same thing,
/// and neither accepts where the other refuses.
pub proof fn law_handshake_is_agreement(a: Handshake, b: Handshake)
    ensures
        verdict(a, b.greeting()) is Ok <==> a == b,
        verdict(a, b.greeting()) is Ok <==> verdict(b, a.greeting()) is Ok,
{
}

// ---------------------------------------------------------------------------
// Tick buffer.
// ---------------------------------------------------------------------------

/// Both peers' inputs for one tick, which is the only form in which the
/// simulation is allowed to see them.
#[derive(Clone, Copy, Debug, PartialEq, Eq, Structural)]
pub struct TickInputs {
    pub local: u32,
    pub remote: u32,
}

/// Ring of per-tick inputs from both peers, and the stall/ready decision
/// built on it.
///
/// The buffer is a ring of [`TickBuffer::CAPACITY`] slots indexed by
/// `tick % CAPACITY`, each stamped with the tick it holds so a stale slot
/// cannot be mistaken for a live one.
#[derive(Clone, Debug)]
pub struct TickBuffer {
    local: Vec<Slot>,
    remote: Vec<Slot>,
    /// Next tick the simulation will attempt. Advanced only by `consume`.
    next_tick: u32,
    input_delay: u32,
}

#[derive(Clone, Copy, Debug, PartialEq, Eq, Structural)]
struct Slot {
    tick: u32,
    bits: u32,
    filled: bool,
}

/// What a tick buffer holds: each peer's inputs by tick.
#[verifier::ext_equal]
pub struct TickBufferView {
    pub local: Map<u32, u32>,
    pub remote: Map<u32, u32>,
    pub next_tick: u32,
    pub input_delay: u32,
}

/// Whether two ticks share a slot.
pub open spec fn same_slot(a: u32, b: u32) -> bool {
    a % 256 == b % 256
}

/// The inputs after one is stored: it takes the place of whatever shared
/// its slot.
pub open spec fn stored(m: Map<u32, u32>, tick: u32, bits: u32) -> Map<u32, u32> {
    Map::new(
        |t: u32| t == tick || (m.contains_key(t) && !same_slot(t, tick)),
        |t: u32| if t == tick {
            bits
        } else {
            m[t]
        },
    )
}

spec fn ring(slots: Seq<Slot>) -> Map<u32, u32> {
    Map::new(
        |t: u32| slots[(t % 256) as int].filled && slots[(t % 256) as int].tick == t,
        |t: u32| slots[(t % 256) as int].bits,
    )
}

proof fn lemma_ring_store(slots: Seq<Slot>, tick: u32, bits: u32)
    requires
        slots.len() == 256,
    ensures
        ring(slots.update((tick % 256) as int, Slot { tick, bits, filled: true })) == stored(
            ring(slots),
            tick,
            bits,
        ),
{
    assert(ring(slots.update((tick % 256) as int, Slot { tick, bits, filled: true })) =~= stored(
        ring(slots),
        tick,
        bits,
    ));
}

proof fn lemma_ring_clear(slots: Seq<Slot>, tick: u32, slot: Slot)
    requires
        slots.len() == 256,
        ring(slots).contains_key(tick),
        !slot.filled,
    ensures
        ring(slots.update((tick % 256) as int, slot)) == ring(slots).remove(tick),
{
}

impl View for TickBuffer {
    type V = TickBufferView;

    closed spec fn view(&self) -> TickBufferView {
        TickBufferView {
            local: ring(self.local@),
            remote: ring(self.remote@),
            next_tick: self.next_tick,
            input_delay: self.input_delay,
        }
    }
}

impl TickBufferView {
    /// Both inputs for a tick, where both are in hand.
    pub open spec fn inputs(self, tick: u32) -> Option<TickInputs> {
        if self.local.contains_key(tick) && self.remote.contains_key(tick) {
            Some(TickInputs { local: self.local[tick], remote: self.remote[tick] })
        } else {
            None
        }
    }
}

/// The tick `n` after `tick`, counting round past the last one.
pub open spec fn ticks_on(tick: u32, n: int) -> u32 {
    ((tick + n) % 0x1_0000_0000) as u32
}

fn empty_slots() -> (v: Vec<Slot>)
    ensures
        v@.len() == 256,
        ring(v@) == Map::<u32, u32>::empty(),
{
    let mut v: Vec<Slot> = Vec::with_capacity(256);
    let mut i: usize = 0;
    while i < 256
        invariant
            i <= 256,
            v@.len() == i,
            forall|j: int| 0 <= j < i ==> !(#[trigger] v@[j]).filled,
        decreases 256 - i,
    {
        v.push(Slot { tick: 0, bits: 0, filled: false });
        i = i + 1;
    }
    v
}

impl TickBuffer {
    /// 256 ticks is ~4.3 s at 60 Hz — far more slack than a link that has
    /// not already timed out will ever need.
    pub const CAPACITY: usize = 256;

    /// Both rings have all their slots.
    pub closed spec fn wf(&self) -> bool {
        self.local@.len() == 256 && self.remote@.len() == 256
    }

    /// An empty buffer, waiting to run tick zero.
    pub fn new(input_delay: u32) -> (b: Self)
        ensures
            b.wf(),
            b@ == (TickBufferView {
                local: Map::empty(),
                remote: Map::empty(),
                next_tick: 0,
                input_delay,
            }),
    {
        TickBuffer { local: empty_slots(), remote: empty_slots(), next_tick: 0, input_delay }
    }

    /// The slot of a tick.
    pub fn idx(tick: u32) -> (i: usize)
        ensures
            i == tick % 256,
    {
        let t: usize = tick as usize;
        assert(t & 255 == t % 256) by (bit_vector);
        t & (Self::CAPACITY - 1)
    }

    /// Ticks between sampling an input and applying it.
    pub fn input_delay(&self) -> (d: u32)
        ensures
            d == self@.input_delay,
    {
        self.input_delay
    }

    /// The tick the simulation is waiting to run.
    pub fn next_tick(&self) -> (t: u32)
        ensures
            t == self@.next_tick,
    {
        self.next_tick
    }

    /// The tick that input sampled *right now* will be applied at. Sample
    /// once per frame and submit under this tick; both peers apply it there.
    pub fn scheduled_tick(&self) -> (t: u32)
        requires
            self@.next_tick + self@.input_delay <= u32::MAX,
        ensures
            t == self@.next_tick + self@.input_delay,
    {
        self.next_tick + self.input_delay
    }

    /// Record locally-sampled input for `tick`, the *application* tick.
    ///
    /// Submitting for a tick already run is ignored: that tick's outcome is
    /// already baked into the world on both peers.
    pub fn submit_local(&mut self, tick: u32, bits: u32)
        requires
            old(self).wf(),
        ensures
            final(self).wf(),
            final(self)@ == (if tick < old(self)@.next_tick {
                old(self)@
            } else {
                TickBufferView { local: stored(old(self)@.local, tick, bits), ..old(self)@ }
            }),
    {
        if tick < self.next_tick {
            return ;
        }
        proof {
            lemma_ring_store(self.local@, tick, bits);
        }
        let i: usize = Self::idx(tick);
        self.local[i] = Slot { tick, bits, filled: true };
    }

    /// Record input received from the peer.
    pub fn submit_remote(&mut self, tick: u32, bits: u32)
        requires
            old(self).wf(),
        ensures
            final(self).wf(),
            final(self)@ == (if tick < old(self)@.next_tick {
                old(self)@
            } else {
                TickBufferView { remote: stored(old(self)@.remote, tick, bits), ..old(self)@ }
            }),
    {
        if tick < self.next_tick {
            return ;
        }
        proof {
            lemma_ring_store(self.remote@, tick, bits);
        }
        let i: usize = Self::idx(tick);
        self.remote[i] = Slot { tick, bits, filled: true };
    }

    /// Do we have *both* peers' inputs for `tick`?
    pub fn ready(&self, tick: u32) -> (r: bool)
        requires
            self.wf(),
        ensures
            r == (self@.inputs(tick) is Some),
    {
        self.inputs_for(tick).is_some()
    }

    /// Both inputs for `tick`, or `None` if either side is missing.
    pub fn inputs_for(&self, tick: u32) -> (r: Option<TickInputs>)
        requires
            self.wf(),
        ensures
            r == self@.inputs(tick),
    {
        let i: usize = Self::idx(tick);
        let l = self.local[i];
        let r = self.remote[i];
        if l.filled && r.filled && l.tick == tick && r.tick == tick {
            Some(TickInputs { local: l.bits, remote: r.bits })
        } else {
            None
        }
    }

    /// Are we blocked on the peer? True when the next tick's inputs are not
    /// both present.
    pub fn stalled(&self) -> (r: bool)
        requires
            self.wf(),
        ensures
            r == (self@.inputs(self@.next_tick) is None),
    {
        !self.ready(self.next_tick)
    }

    /// Take the inputs for the next tick and advance. Returns `None` — and
    /// does not advance — when stalled. The only way to move `next_tick`
    /// forward is to have actually consumed a complete pair.
    pub fn consume(&mut self) -> (r: Option<TickInputs>)
        requires
            old(self).wf(),
        ensures
            final(self).wf(),
            r == old(self)@.inputs(old(self)@.next_tick),
            final(self)@ == (match r {
                None => old(self)@,
                Some(_) => TickBufferView {
                    local: old(self)@.local.remove(old(self)@.next_tick),
                    remote: old(self)@.remote.remove(old(self)@.next_tick),
                    next_tick: ticks_on(old(self)@.next_tick, 1),
                    ..old(self)@
                },
            }),
    {
        let tick: u32 = self.next_tick;
        match self.inputs_for(tick) {
            None => None,
            Some(inputs) => {
                let i: usize = Self::idx(tick);
                let l = self.local[i];
                let r = self.remote[i];
                let spent_l = Slot { tick: l.tick, bits: l.bits, filled: false };
                let spent_r = Slot { tick: r.tick, bits: r.bits, filled: false };
                proof {
                    lemma_ring_clear(self.local@, tick, spent_l);
                    lemma_ring_clear(self.remote@, tick, spent_r);
                }
                self.local[i] = spent_l;
                self.remote[i] = spent_r;
                self.next_tick = tick.wrapping_add(1);
                Some(inputs)
            },
        }
    }

    /// Ticks of remote input buffered ahead of the current one, up to the
    /// first hole. A healthy connection sits near `input_delay`.
    pub fn remote_lead(&self) -> (lead: u32)
        requires
            self.wf(),
        ensures
            lead <= 256,
            forall|i: int|
                0 <= i < lead ==> self@.remote.contains_key(
                    #[trigger] ticks_on(self@.next_tick, i),
                ),
            lead < 256 ==> !self@.remote.contains_key(ticks_on(self@.next_tick, lead as int)),
    {
        let mut lead: u32 = 0;
        while lead < 256
            invariant
                lead <= 256,
                self.wf(),
                forall|i: int|
                    0 <= i < lead ==> self@.remote.contains_key(
                        #[trigger] ticks_on(self@.next_tick, i),
                    ),
            decreases 256 - lead,
        {
            let tick: u32 = self.next_tick.wrapping_add(lead);
            let r = self.remote[Self::idx(tick)];
            if r.filled && r.tick == tick {
                lead = lead + 1;
            } else {
                return lead;
            }
        }
        lead
    }
}

/// Within a window of 256 ticks no two share a slot, so storing one input
/// never costs another that is still to be run.
pub proof fn law_window_never_collides(m: Map<u32, u32>, tick: u32, bits: u32, other: u32)
    requires
        m.contains_key(other),
        other != tick,
        -256 < tick - other < 256,
    ensures
        stored(m, tick, bits).contains_key(other),
        stored(m, tick, bits)[other] == m[other],
        stored(m, tick, bits).contains_key(tick),
        stored(m, tick, bits)[tick] == bits,
{
}

/// An index collision from far away is never mistaken for the tick asked
/// for: a stored input is found under its own tick alone.
pub proof fn law_stale_slots_are_not_live(m: Map<u32, u32>, tick: u32, bits: u32, far: u32)
    requires
        same_slot(tick, far),
        tick != far,
    ensures
        !stored(m, tick, bits).contains_key(far),
{
}

// ---------------------------------------------------------------------------
// Desync detection.
// ---------------------------------------------------------------------------

/// Peers disagreed about the world at `tick`.
///
/// Nothing here can repair that. Its value is diagnostic: it names the
/// *tick*.
#[derive(Clone, Copy, Debug, PartialEq, Eq, Structural)]
pub struct Desync {
    pub tick: u32,
    pub local_hash: u64,
    pub remote_hash: u64,
}

impl Desync {
    /// The sentence shown.
    pub open spec fn text(self) -> Seq<char> {
        "desync at tick "@ + text::decimal(self.tick as nat) + ": local 0x"@ + text::fixed_hex(
            self.local_hash as nat,
            16,
        ) + " != remote 0x"@ + text::fixed_hex(self.remote_hash as nat, 16)
    }

    /// A human-readable description.
    pub fn message(&self) -> (s: String)
        ensures
            s@ == self.text(),
    {
        let mut s = "desync at tick ".to_owned();
        text::push_decimal(&mut s, self.tick as u128);
        s.append(": local 0x");
        text::push_hex(&mut s, self.local_hash, 16);
        s.append(" != remote 0x");
        text::push_hex(&mut s, self.remote_hash, 16);
        s
    }
}

/// Matches up local and remote world hashes by tick and reports the first
/// disagreement.
///
/// Hashes arrive out of step, so both sides are held until their counterpart
/// shows up. Unmatched entries are pruned once they fall outside the window,
/// since a hash whose partner never arrived is one the peer never sent.
#[derive(Clone, Debug)]
pub struct DesyncDetector {
    pub local: Vec<(u32, u64)>,
    pub remote: Vec<(u32, u64)>,
    /// First divergence seen. Latched: after peers diverge every later tick
    /// also mismatches.
    pub reported: Option<Desync>,
}

/// What a detector holds.
#[verifier::ext_equal]
pub struct DetectorView {
    pub local: Seq<(u32, u64)>,
    pub remote: Seq<(u32, u64)>,
    pub reported: Option<Desync>,
}

impl View for DesyncDetector {
    type V = DetectorView;

    open spec fn view(&self) -> DetectorView {
        DetectorView { local: self.local@, remote: self.remote@, reported: self.reported }
    }
}

/// Where the hash for `tick` stands, or the length where there is none.
pub open spec fn position_of(v: Seq<(u32, u64)>, tick: u32) -> int
    decreases v.len(),
{
    if v.len() == 0 || v[0].0 == tick {
        0
    } else {
        1 + position_of(v.drop_first(), tick)
    }
}

/// The hash held for `tick`.
pub open spec fn hash_for(v: Seq<(u32, u64)>, tick: u32) -> Option<u64> {
    let i = position_of(v, tick);
    if i < v.len() {
        Some(v[i].1)
    } else {
        None
    }
}

/// The hashes after one is recorded: it replaces an earlier one for the same
/// tick, else it is appended, and the oldest makes room where the window is
/// full.
pub open spec fn recorded(v: Seq<(u32, u64)>, tick: u32, hash: u64) -> Seq<(u32, u64)> {
    let i = position_of(v, tick);
    if i < v.len() {
        v.update(i, (tick, hash))
    } else if v.len() >= 64 {
        v.drop_first().push((tick, hash))
    } else {
        v.push((tick, hash))
    }
}

/// Whether a hash is for another tick.
pub open spec fn not_for(tick: u32) -> spec_fn((u32, u64)) -> bool {
    |e: (u32, u64)| e.0 != tick
}

/// The hashes without those for `tick`.
pub open spec fn forgotten(v: Seq<(u32, u64)>, tick: u32) -> Seq<(u32, u64)> {
    v.filter(not_for(tick))
}

/// What comparing the two sides for `tick` leaves behind: a matched pair is
/// dropped either way, and the first pair that differs is latched.
pub open spec fn compared(d: DetectorView, tick: u32) -> DetectorView {
    match (hash_for(d.local, tick), hash_for(d.remote, tick)) {
        (Some(l), Some(r)) => if d.reported is Some {
            d
        } else {
            DetectorView {
                local: forgotten(d.local, tick),
                remote: forgotten(d.remote, tick),
                reported: if l == r {
                    None
                } else {
                    Some(Desync { tick, local_hash: l, remote_hash: r })
                },
            }
        },
        _ => d,
    }
}

/// After a local hash.
pub open spec fn after_local(d: DetectorView, tick: u32, hash: u64) -> DetectorView {
    compared(DetectorView { local: recorded(d.local, tick, hash), ..d }, tick)
}

/// After a remote hash.
pub open spec fn after_remote(d: DetectorView, tick: u32, hash: u64) -> DetectorView {
    compared(DetectorView { remote: recorded(d.remote, tick, hash), ..d }, tick)
}

/// What a record call returns: the divergence, where this call found it.
pub open spec fn newly_reported(before: DetectorView, after: DetectorView) -> Option<Desync> {
    if before.reported is None {
        after.reported
    } else {
        None
    }
}

proof fn lemma_position(v: Seq<(u32, u64)>, tick: u32, i: int)
    requires
        0 <= i <= v.len(),
        forall|j: int| 0 <= j < i ==> (#[trigger] v[j]).0 != tick,
        i < v.len() ==> v[i].0 == tick,
    ensures
        position_of(v, tick) == i,
    decreases i,
{
    if i > 0 {
        lemma_position(v.drop_first(), tick, i - 1);
    }
}

fn find_hash(v: &Vec<(u32, u64)>, tick: u32) -> (i: usize)
    ensures
        i == position_of(v@, tick),
        i <= v@.len(),
{
    let mut i: usize = 0;
    while i < v.len()
        invariant
            i <= v@.len(),
            forall|j: int| 0 <= j < i ==> (#[trigger] v@[j]).0 != tick,
        decreases v@.len() - i,
    {
        if v[i].0 == tick {
            proof {
                lemma_position(v@, tick, i as int);
            }
            return i;
        }
        i = i + 1;
    }
    proof {
        lemma_position(v@, tick, i as int);
    }
    i
}

fn forget(v: &Vec<(u32, u64)>, tick: u32) -> (out: Vec<(u32, u64)>)
    ensures
        out@ == forgotten(v@, tick),
{
    let mut out: Vec<(u32, u64)> = Vec::new();
    let mut i: usize = 0;
    let ghost keep = not_for(tick);
    proof {
        reveal(Seq::filter);
    }
    while i < v.len()
        invariant
            i <= v@.len(),
            keep == not_for(tick),
            out@ == v@.take(i as int).filter(keep),
        decreases v@.len() - i,
    {
        proof {
            reveal(Seq::filter);
            assert(v@.take(i + 1).drop_last() =~= v@.take(i as int));
        }
        if v[i].0 != tick {
            out.push(v[i]);
        }
        i = i + 1;
    }
    assert(v@.take(i as int) =~= v@);
    out
}

impl DesyncDetector {
    /// How many unmatched hashes to hold per side before dropping the oldest.
    pub const WINDOW: usize = 64;

    /// Neither side holds more than the window.
    pub open spec fn wf(&self) -> bool {
        self.local@.len() <= 64 && self.remote@.len() <= 64
    }

    /// A detector that has seen nothing.
    pub fn new() -> (d: Self)
        ensures
            d.wf(),
            d@ == (DetectorView { local: Seq::empty(), remote: Seq::empty(), reported: None }),
    {
        DesyncDetector { local: Vec::new(), remote: Vec::new(), reported: None }
    }

    /// Record the local world hash for `tick`. Returns a [`Desync`] if the
    /// peer's hash for that tick is already in hand and differs.
    pub fn record_local(&mut self, tick: u32, hash: u64) -> (r: Option<Desync>)
        requires
            old(self).wf(),
        ensures
            final(self).wf(),
            final(self)@ == after_local(old(self)@, tick, hash),
            r == newly_reported(old(self)@, final(self)@),
    {
        Self::push(&mut self.local, tick, hash);
        self.check(tick)
    }

    /// Record a hash received from the peer. Returns a [`Desync`] if our own
    /// hash for that tick is already in hand and differs.
    pub fn record_remote(&mut self, tick: u32, hash: u64) -> (r: Option<Desync>)
        requires
            old(self).wf(),
        ensures
            final(self).wf(),
            final(self)@ == after_remote(old(self)@, tick, hash),
            r == newly_reported(old(self)@, final(self)@),
    {
        Self::push(&mut self.remote, tick, hash);
        self.check(tick)
    }

    fn push(v: &mut Vec<(u32, u64)>, tick: u32, hash: u64)
        requires
            old(v)@.len() <= 64,
        ensures
            final(v)@ == recorded(old(v)@, tick, hash),
            final(v)@.len() <= 64,
    {
        let i: usize = find_hash(v, tick);
        if i < v.len() {
            v[i] = (tick, hash);
            return ;
        }
        if v.len() >= Self::WINDOW {
            v.remove(0);
        }
        v.push((tick, hash));
    }

    fn check(&mut self, tick: u32) -> (r: Option<Desync>)
        requires
            old(self).wf(),
        ensures
            final(self).wf(),
            final(self)@ == compared(old(self)@, tick),
            r == newly_reported(old(self)@, final(self)@),
    {
        if self.reported.is_some() {
            return None;
        }
        let i: usize = find_hash(&self.local, tick);
        let j: usize = find_hash(&self.remote, tick);
        if i >= self.local.len() || j >= self.remote.len() {
            return None;
        }
        let l: u64 = self.local[i].1;
        let r: u64 = self.remote[j].1;
        // Matched pair either way — drop both so the window stays small.
        self.local = forget(&self.local, tick);
        self.remote = forget(&self.remote, tick);
        proof {
            let keep = not_for(tick);
            lemma_filter_len(old(self).local@, keep);
            lemma_filter_len(old(self).remote@, keep);
        }
        if l == r {
            return None;
        }
        let d = Desync { tick, local_hash: l, remote_hash: r };
        self.reported = Some(d);
        Some(d)
    }

    /// The first divergence, if the peers have diverged at all.
    pub fn desync(&self) -> (r: Option<Desync>)
        ensures
            r == self@.reported,
    {
        self.reported
    }

    /// Have the peers diverged?
    pub fn is_desynced(&self) -> (r: bool)
        ensures
            r == (self@.reported is Some),
    {
        self.reported.is_some()
    }
}

impl Default for DesyncDetector {
    /// A detector that has seen nothing.
    fn default() -> (d: Self)
        ensures
            d.wf(),
            d@ == (DetectorView { local: Seq::empty(), remote: Seq::empty(), reported: None }),
    {
        DesyncDetector::new()
    }
}

proof fn lemma_filter_len<T>(v: Seq<T>, keep: spec_fn(T) -> bool)
    ensures
        v.filter(keep).len() <= v.len(),
    decreases v.len(),
{
    reveal(Seq::filter);
    if v.len() > 0 {
        lemma_filter_len(v.drop_last(), keep);
    }
}

/// The first divergence stays: whatever is recorded later, it is neither
/// replaced nor reported again.
pub proof fn law_first_desync_latches(d: DetectorView, tick: u32, hash: u64)
    requires
        d.reported is Some,
    ensures
        after_local(d, tick, hash).reported == d.reported,
        after_remote(d, tick, hash).reported == d.reported,
        newly_reported(d, after_local(d, tick, hash)) is None,
        newly_reported(d, after_remote(d, tick, hash)) is None,
{
}

proof fn lemma_recorded_is_found(v: Seq<(u32, u64)>, tick: u32, hash: u64)
    ensures
        hash_for(recorded(v, tick, hash), tick) == Some(hash),
{
    lemma_position_meaning(v, tick);
    let i = position_of(v, tick);
    let w = recorded(v, tick, hash);
    if i < v.len() {
        lemma_position(w, tick, i);
    } else if v.len() >= 64 {
        lemma_position(w, tick, v.len() - 1);
    } else {
        lemma_position(w, tick, v.len() as int);
    }
}

proof fn lemma_position_meaning(v: Seq<(u32, u64)>, tick: u32)
    ensures
        0 <= position_of(v, tick) <= v.len(),
        position_of(v, tick) < v.len() ==> v[position_of(v, tick)].0 == tick,
        forall|j: int| 0 <= j < position_of(v, tick) ==> (#[trigger] v[j]).0 != tick,
    decreases v.len(),
{
    if v.len() > 0 && v[0].0 != tick {
        let w = v.drop_first();
        lemma_position_meaning(w, tick);
        assert forall|j: int| 0 <= j < position_of(v, tick) implies (#[trigger] v[j]).0
            != tick by {
            if j > 0 {
                assert(w[j - 1] == v[j]);
            }
        }
    }
}

/// A pair of hashes for one tick is reported exactly where they differ, with
/// the tick and both hashes, whichever of the two arrives first.
pub proof fn law_pairs_are_judged_in_either_order(d: DetectorView, tick: u32, l: u64, r: u64)
    requires
        d.reported is None,
        hash_for(d.local, tick) is None,
        hash_for(d.remote, tick) is None,
    ensures
        after_local(d, tick, l).reported is None,
        after_remote(d, tick, r).reported is None,
        after_remote(after_local(d, tick, l), tick, r).reported == (if l == r {
            None
        } else {
            Some(Desync { tick, local_hash: l, remote_hash: r })
        }),
        after_local(after_remote(d, tick, r), tick, l).reported == after_remote(
            after_local(d, tick, l),
            tick,
            r,
        ).reported,
{
    lemma_recorded_is_found(d.local, tick, l);
    lemma_recorded_is_found(d.remote, tick, r);
}

// ---------------------------------------------------------------------------
// What the game sees.
// ---------------------------------------------------------------------------

/// Connection lifecycle, as observed by the main thread.
#[derive(Debug, PartialEq, Eq)]
pub enum NetEvent {
    /// TCP is up and both `Hello`s matched. No tick may run before this.
    Connected,
    /// A tick's worth of input arrived from the peer.
    Input { tick: u32, bits: u32 },
    /// Peer's world hash at a tick, for the game to compare against its own.
    Checksum { tick: u32, hash: u64 },
    /// Out-of-band text from the peer.
    Chat { text: String },
    /// Peer said `Bye` — a clean quit, not a fault.
    PeerLeft,
    /// The connection is over and will not recover. Carries a human-readable
    /// reason.
    Disconnected { reason: String },
}

pub enum NetEventView {
    Connected,
    Input { tick: u32, bits: u32 },
    Checksum { tick: u32, hash: u64 },
    Chat { text: Seq<char> },
    PeerLeft,
    Disconnected { reason: Seq<char> },
}

impl View for NetEvent {
    type V = NetEventView;

    open spec fn view(&self) -> NetEventView {
        match self {
            NetEvent::Connected => NetEventView::Connected,
            NetEvent::Input { tick, bits } => NetEventView::Input { tick: *tick, bits: *bits },
            NetEvent::Checksum { tick, hash } => NetEventView::Checksum {
                tick: *tick,
                hash: *hash,
            },
            NetEvent::Chat { text } => NetEventView::Chat { text: text@ },
            NetEvent::PeerLeft => NetEventView::PeerLeft,
            NetEvent::Disconnected { reason } => NetEventView::Disconnected { reason: reason@ },
        }
    }
}

impl Clone for NetEvent {
    fn clone(&self) -> (r: Self)
        ensures
            r == *self,
    {
        match self {
            NetEvent::Connected => NetEvent::Connected,
            NetEvent::Input { tick, bits } => NetEvent::Input { tick: *tick, bits: *bits },
            NetEvent::Checksum { tick, hash } => NetEvent::Checksum { tick: *tick, hash: *hash },
            NetEvent::Chat { text } => NetEvent::Chat { text: text.clone() },
            NetEvent::PeerLeft => NetEvent::PeerLeft,
            NetEvent::Disconnected { reason } => NetEvent::Disconnected { reason: reason.clone() },
        }
    }
}

/// Whether the link is live, and whether it has ended for good.
#[derive(Copy, Clone, Debug, PartialEq, Eq, Structural)]
pub struct LinkState {
    pub connected: bool,
    pub closed: bool,
}

impl LinkState {
    /// Before anything happened.
    pub fn new() -> (s: Self)
        ensures
            s == (LinkState { connected: false, closed: false }),
    {
        LinkState { connected: false, closed: false }
    }

    /// Take note of an event before it is handed to the game.
    pub fn observe(&mut self, event: &NetEvent)
        ensures
            *final(self) == (match event@ {
                NetEventView::Connected => LinkState { connected: true, ..*old(self) },
                NetEventView::Disconnected { .. } => LinkState { connected: false, closed: true },
                _ => *old(self),
            }),
    {
        match event {
            NetEvent::Connected => {
                self.connected = true;
            },
            NetEvent::Disconnected { .. } => {
                self.connected = false;
                self.closed = true;
            },
            _ => {},
        }
    }

    /// The socket thread is gone. Latch closed either way.
    pub fn hang_up(&mut self)
        ensures
            *final(self) == (LinkState { connected: false, closed: true }),
    {
        self.closed = true;
        self.connected = false;
    }
}

// ---------------------------------------------------------------------------
// Reading frames off a stream.
// ---------------------------------------------------------------------------

/// What one read call brought.
#[derive(Copy, Clone, Debug, PartialEq, Eq, Structural)]
pub enum ReadReport {
    /// So many bytes; zero is the end of the stream.
    Got(usize),
    /// Nothing, try again.
    Interrupted,
    /// An error.
    Failed,
}

/// How filling a buffer goes on.
#[derive(Copy, Clone, Debug, PartialEq, Eq, Structural)]
pub enum Fill {
    /// Read on, with so many bytes in place.
    More(usize),
    /// The buffer is full.
    Full,
    /// The stream ended before any byte.
    Ended,
    /// The stream ended partway through.
    Truncated,
    /// Give up with the error.
    Failed,
}

/// How filling a buffer of `want` bytes goes on after one read call, with
/// `filled` in place before it. An end before any byte is clean; partway
/// through it is not.
pub open spec fn filled_after(filled: usize, want: usize, report: ReadReport) -> Fill {
    match report {
        ReadReport::Got(n) => if n == 0 {
            if filled == 0 {
                Fill::Ended
            } else {
                Fill::Truncated
            }
        } else if filled + n == want {
            Fill::Full
        } else {
            Fill::More((filled + n) as usize)
        },
        ReadReport::Interrupted => Fill::More(filled),
        ReadReport::Failed => Fill::Failed,
    }
}

/// What to do after one read call into a buffer of `want` bytes of which
/// `filled` were in place.
pub fn fill_step(filled: usize, want: usize, report: ReadReport) -> (next: Fill)
    requires
        filled < want,
        report matches ReadReport::Got(n) ==> n <= want - filled,
    ensures
        next == filled_after(filled, want, report),
{
    match report {
        ReadReport::Got(n) => {
            if n == 0 {
                if filled == 0 {
                    Fill::Ended
                } else {
                    Fill::Truncated
                }
            } else if filled + n == want {
                Fill::Full
            } else {
                Fill::More(filled + n)
            }
        },
        ReadReport::Interrupted => Fill::More(filled),
        ReadReport::Failed => Fill::Failed,
    }
}

/// The length of the body that a frame prefix announces, or why it is
/// refused. Nothing is allocated for a length out of range.
pub fn frame_length(hi: u8, lo: u8) -> (res: Result<usize, String>)
    ensures
        ({
            let len = from_be(seq![hi, lo]);
            match res {
                Ok(n) => n == len && 0 < len <= MAX_FRAME_BYTES,
                Err(why) => (len == 0 || len > MAX_FRAME_BYTES) && why@ == "frame length "@
                    + text::decimal(len) + " out of range"@,
            }
        }),
{
    let len: usize = hi as usize * 256 + lo as usize;
    proof {
        reveal_with_fuel(from_be, 3);
    }
    if len == 0 || len > MAX_FRAME_BYTES {
        let mut why = "frame length ".to_owned();
        text::push_decimal(&mut why, len as u128);
        why.append(" out of range");
        return Err(why);
    }
    Ok(len)
}

/// A frame body's message, or why it is refused.
pub fn decode_frame(body: &[u8]) -> (res: Result<Message, String>)
    ensures
        match parse_body(body@) {
            Ok(m) => res is Ok && res->Ok_0@ == m,
            Err(e) => res is Err && res->Err_0@ == e.text(),
        },
{
    match Message::decode_body(body) {
        Ok(m) => Ok(m),
        Err(e) => Err(e.message()),
    }
}

/// Every frame that is sent announces a length that is accepted, and its
/// body is what follows the prefix.
pub proof fn law_frames_are_accepted(m: MessageView)
    requires
        too_long(m) is None,
    ensures
        frame_bytes(m).len() == 2 + body_bytes(m).len(),
        from_be(frame_bytes(m).take(2)) == body_bytes(m).len(),
        0 < body_bytes(m).len() <= MAX_FRAME_BYTES,
        frame_bytes(m).skip(2) == body_bytes(m),
{
    law_message_round_trip(m);
    lemma2_to64();
    law_be_round_trip(body_bytes(m).len(), 2);
    assert(frame_bytes(m).take(2) =~= be_bytes(body_bytes(m).len(), 2));
}

/// How reading a frame went.
#[derive(Debug, PartialEq, Eq)]
pub enum FrameRead {
    /// A whole message.
    Message(Message),
    /// The peer closed between two messages.
    Closed,
    /// The stream broke, with the reason.
    Failed(String),
}

pub enum FrameReadView {
    Message(MessageView),
    Closed,
    Failed(Seq<char>),
}

impl View for FrameRead {
    type V = FrameReadView;

    open spec fn view(&self) -> FrameReadView {
        match self {
            FrameRead::Message(m) => FrameReadView::Message(m@),
            FrameRead::Closed => FrameReadView::Closed,
            FrameRead::Failed(e) => FrameReadView::Failed(e@),
        }
    }
}

/// The part of a frame that is being read.
#[derive(Copy, Clone, Debug, PartialEq, Eq, Structural)]
pub enum FramePart {
    Prefix,
    Body,
}

/// What it means for a frame that one of its parts could not be filled;
/// `None` where it still can be, or is. `why` is the stream's own error.
pub open spec fn frame_broken(part: FramePart, fill: Fill, why: Seq<char>) -> Option<
    FrameReadView,
> {
    match fill {
        Fill::More(_) => None,
        Fill::Full => None,
        Fill::Ended => Some(
            match part {
                FramePart::Prefix => FrameReadView::Closed,
                FramePart::Body => FrameReadView::Failed("peer closed mid-frame"@),
            },
        ),
        Fill::Truncated => Some(FrameReadView::Failed("peer closed mid-frame"@)),
        Fill::Failed => Some(FrameReadView::Failed(why)),
    }
}

/// What a frame comes to whose part could not be filled.
///
/// An end between two frames is a normal disconnect; one inside a frame means
/// that the peer died mid-message, so the stream is genuinely broken.
pub fn broken_frame(part: FramePart, fill: Fill, why: String) -> (r: Option<FrameRead>)
    ensures
        match frame_broken(part, fill, why@) {
            Some(read) => r is Some && r->0@ == read,
            None => r is None,
        },
{
    match fill {
        Fill::More(_) => None,
        Fill::Full => None,
        Fill::Ended => match part {
            FramePart::Prefix => Some(FrameRead::Closed),
            FramePart::Body => Some(FrameRead::Failed("peer closed mid-frame".to_owned())),
        },
        Fill::Truncated => Some(FrameRead::Failed("peer closed mid-frame".to_owned())),
        Fill::Failed => Some(FrameRead::Failed(why)),
    }
}

/// A normal disconnect is told from a truncated frame: the peer counts as
/// having closed exactly where the stream ends with nothing of a frame in
/// place. An end anywhere else is a failed read.
pub proof fn law_only_an_end_between_frames_is_clean(
    part: FramePart,
    filled: usize,
    want: usize,
    report: ReadReport,
    why: Seq<char>,
)
    requires
        filled < want,
        report matches ReadReport::Got(n) ==> n <= want - filled,
    ensures
        frame_broken(part, filled_after(filled, want, report), why) == Some(
            FrameReadView::Closed,
        ) <==> part == FramePart::Prefix && filled == 0 && report == ReadReport::Got(0),
        report == ReadReport::Got(0) && (part == FramePart::Body || filled > 0)
            ==> frame_broken(part, filled_after(filled, want, report), why) is Some
            && frame_broken(part, filled_after(filled, want, report), why)->0 is Failed,
{
}

/// What the reading side tells the game of a frame, and whether it reads on.
///
/// A second `Hello` mid-stream is a protocol break, not a re-handshake.
pub open spec fn reader_answer(read: FrameReadView) -> (NetEventView, bool) {
    match read {
        FrameReadView::Message(MessageView::Input { tick, bits }) => (
            NetEventView::Input { tick, bits },
            true,
        ),
        FrameReadView::Message(MessageView::Checksum { tick, hash }) => (
            NetEventView::Checksum { tick, hash },
            true,
        ),
        FrameReadView::Message(MessageView::Chat { text }) => (NetEventView::Chat { text }, true),
        FrameReadView::Message(MessageView::Bye) => (NetEventView::PeerLeft, false),
        FrameReadView::Message(MessageView::Hello { .. }) => (
            NetEventView::Disconnected { reason: "unexpected Hello mid-stream"@ },
            false,
        ),
        FrameReadView::Closed => (
            NetEventView::Disconnected { reason: "peer closed the connection"@ },
            false,
        ),
        FrameReadView::Failed(e) => (
            NetEventView::Disconnected { reason: "read failed: "@ + e },
            false,
        ),
    }
}

/// What the reading side tells the game of a frame, and whether it reads on.
pub fn reader_step(read: FrameRead) -> (r: (NetEvent, bool))
    ensures
        (r.0@, r.1) == reader_answer(read@),
{
    match read {
        FrameRead::Message(Message::Input { tick, bits }) => (NetEvent::Input { tick, bits }, true),
        FrameRead::Message(Message::Checksum { tick, hash }) => (
            NetEvent::Checksum { tick, hash },
            true,
        ),
        FrameRead::Message(Message::Chat { text }) => (NetEvent::Chat { text }, true),
        FrameRead::Message(Message::Bye) => (NetEvent::PeerLeft, false),
        FrameRead::Message(Message::Hello { .. }) => (
            NetEvent::Disconnected { reason: "unexpected Hello mid-stream".to_owned() },
            false,
        ),
        FrameRead::Closed => (
            NetEvent::Disconnected { reason: "peer closed the connection".to_owned() },
            false,
        ),
        FrameRead::Failed(e) => {
            let mut reason = "read failed: ".to_owned();
            reason.append(e.as_str());
            (NetEvent::Disconnected { reason }, false)
        },
    }
}

// ---------------------------------------------------------------------------
// The connecting and writing side.
// ---------------------------------------------------------------------------

/// Where the socket thread stands: what it was last told to do.
#[derive(Copy, Clone, Debug, PartialEq, Eq, Structural)]
pub enum Phase {
    /// Establishing the TCP connection.
    Connecting,
    /// Switching Nagle's algorithm off.
    Configuring,
    /// Cloning the stream for the reading side.
    Cloning,
    /// Writing our `Hello`.
    Greeting,
    /// Waiting for the peer's `Hello`.
    Awaiting,
    /// Telling the game that the link is up.
    Announcing,
    /// Starting the reading side.
    Spawning,
    /// Waiting for something to send.
    Pumping,
    /// Writing a message; the last one closes the link.
    Writing { last: bool },
    /// Over for good.
    Over,
}

/// What happened to what the socket thread was told to do.
#[derive(Debug, PartialEq, Eq)]
pub enum Happened {
    /// It was done.
    Done,
    /// It failed, with the reason.
    Failed(String),
    /// A frame was read, or could not be.
    Read(FrameRead),
    /// The game is no longer listening.
    Unheard,
    /// The game has something to send.
    Outbound(Message),
    /// The game had nothing to send for a while.
    Quiet,
    /// The game dropped its handle.
    Dropped,
}

pub enum HappenedView {
    Done,
    Failed(Seq<char>),
    Read(FrameReadView),
    Unheard,
    Outbound(MessageView),
    Quiet,
    Dropped,
}

impl View for Happened {
    type V = HappenedView;

    open spec fn view(&self) -> HappenedView {
        match self {
            Happened::Done => HappenedView::Done,
            Happened::Failed(e) => HappenedView::Failed(e@),
            Happened::Read(r) => HappenedView::Read(r@),
            Happened::Unheard => HappenedView::Unheard,
            Happened::Outbound(m) => HappenedView::Outbound(m@),
            Happened::Quiet => HappenedView::Quiet,
            Happened::Dropped => HappenedView::Dropped,
        }
    }
}

/// What the socket thread is to do next.
#[derive(Debug, PartialEq, Eq)]
pub enum Todo {
    Connect,
    SetNoDelay,
    CloneStream,
    /// Write the bytes, blocking: backpressure must stall, never drop.
    Write(Vec<u8>),
    ReadFrame,
    /// Make sure that the game heard of the connection.
    Announce,
    SpawnReader,
    AwaitOutbound,
    /// Half-close, so the peer's reader sees the end promptly, and stop.
    CloseWrite,
    /// Close both directions and stop.
    CloseBoth,
    Stop,
}

pub enum TodoView {
    Connect,
    SetNoDelay,
    CloneStream,
    Write(Seq<u8>),
    ReadFrame,
    Announce,
    SpawnReader,
    AwaitOutbound,
    CloseWrite,
    CloseBoth,
    Stop,
}

impl View for Todo {
    type V = TodoView;

    open spec fn view(&self) -> TodoView {
        match self {
            Todo::Connect => TodoView::Connect,
            Todo::SetNoDelay => TodoView::SetNoDelay,
            Todo::CloneStream => TodoView::CloneStream,
            Todo::Write(b) => TodoView::Write(b@),
            Todo::ReadFrame => TodoView::ReadFrame,
            Todo::Announce => TodoView::Announce,
            Todo::SpawnReader => TodoView::SpawnReader,
            Todo::AwaitOutbound => TodoView::AwaitOutbound,
            Todo::CloseWrite => TodoView::CloseWrite,
            Todo::CloseBoth => TodoView::CloseBoth,
            Todo::Stop => TodoView::Stop,
        }
    }
}

/// One step of the socket thread: where it stands then, what the game is
/// told, what it does next.
pub struct StepView {
    pub phase: Phase,
    pub emit: Option<NetEventView>,
    pub todo: TodoView,
}

/// Go on without a word.
pub open spec fn go(phase: Phase, todo: TodoView) -> StepView {
    StepView { phase, emit: None, todo }
}

/// End the connection for a reason.
pub open spec fn lose(reason: Seq<char>) -> StepView {
    StepView {
        phase: Phase::Over,
        emit: Some(NetEventView::Disconnected { reason }),
        todo: TodoView::Stop,
    }
}

/// What is made of a message to send. Encoding only fails on oversize chat:
/// that one message is not sent, and the session goes on.
pub open spec fn outbound(m: MessageView) -> StepView {
    match too_long(m) {
        Some(n) => StepView {
            phase: Phase::Pumping,
            emit: Some(
                NetEventView::Chat {
                    text: "[not sent: "@ + EncodeError::ChatTooLong(n as usize).text() + "]"@,
                },
            ),
            todo: TodoView::AwaitOutbound,
        },
        None => go(
            Phase::Writing { last: m == MessageView::Bye },
            TodoView::Write(frame_bytes(m)),
        ),
    }
}

/// What is made of the peer's first frame.
pub open spec fn greeted(h: Handshake, read: FrameReadView) -> StepView {
    match read {
        FrameReadView::Message(m) => match verdict(h, m) {
            Ok(()) => StepView {
                phase: Phase::Announcing,
                emit: Some(NetEventView::Connected),
                todo: TodoView::Announce,
            },
            Err(e) => lose(e.text()),
        },
        FrameReadView::Closed => lose("peer closed during handshake"@),
        FrameReadView::Failed(e) => lose("handshake read failed: "@ + e),
    }
}

/// The script of the socket thread. What does not belong to a phase ends it.
pub open spec fn script(h: Handshake, phase: Phase, what: HappenedView) -> StepView {
    match (phase, what) {
        (Phase::Connecting, HappenedView::Done) => go(Phase::Configuring, TodoView::SetNoDelay),
        (Phase::Connecting, HappenedView::Failed(e)) => lose("connect failed: "@ + e),
        (Phase::Configuring, HappenedView::Done) => go(Phase::Cloning, TodoView::CloneStream),
        (Phase::Configuring, HappenedView::Failed(e)) => lose("set_nodelay failed: "@ + e),
        (Phase::Cloning, HappenedView::Done) => go(
            Phase::Greeting,
            TodoView::Write(frame_bytes(h.greeting())),
        ),
        (Phase::Cloning, HappenedView::Failed(e)) => lose("clone failed: "@ + e),
        (Phase::Greeting, HappenedView::Done) => go(Phase::Awaiting, TodoView::ReadFrame),
        (Phase::Greeting, HappenedView::Failed(e)) => lose("hello write failed: "@ + e),
        (Phase::Awaiting, HappenedView::Read(read)) => greeted(h, read),
        (Phase::Announcing, HappenedView::Done) => go(Phase::Spawning, TodoView::SpawnReader),
        (Phase::Spawning, HappenedView::Done) => go(Phase::Pumping, TodoView::AwaitOutbound),
        (Phase::Spawning, HappenedView::Failed(e)) => lose("rx thread spawn failed: "@ + e),
        (Phase::Pumping, HappenedView::Outbound(m)) => outbound(m),
        (Phase::Pumping, HappenedView::Quiet) => go(Phase::Pumping, TodoView::AwaitOutbound),
        (Phase::Pumping, HappenedView::Dropped) => go(Phase::Over, TodoView::CloseBoth),
        (Phase::Writing { last }, HappenedView::Done) => if last {
            go(Phase::Over, TodoView::CloseWrite)
        } else {
            go(Phase::Pumping, TodoView::AwaitOutbound)
        },
        (Phase::Writing { .. }, HappenedView::Failed(e)) => lose("write failed: "@ + e),
        _ => go(Phase::Over, TodoView::Stop),
    }
}

/// What the game is told in one step, and what the socket thread does next.
#[derive(Debug, PartialEq, Eq)]
pub struct SocketStep {
    pub emit: Option<NetEvent>,
    pub todo: Todo,
}

/// The decisions of the socket thread: connect, handshake, then pump until
/// something ends it.
#[derive(Copy, Clone, Debug, PartialEq, Eq, Structural)]
pub struct SocketScript {
    pub handshake: Handshake,
    pub phase: Phase,
}

/// `prefix` followed by `detail`, as the reason of a disconnect.
fn lost(prefix: &str, detail: &str) -> (step: SocketStep)
    ensures
        step.emit is Some,
        step.emit->Some_0@ == (NetEventView::Disconnected { reason: prefix@ + detail@ }),
        step.todo@ == TodoView::Stop,
{
    let mut reason = prefix.to_owned();
    reason.append(detail);
    SocketStep { emit: Some(NetEvent::Disconnected { reason }), todo: Todo::Stop }
}

fn quietly(todo: Todo) -> (step: SocketStep)
    ensures
        step.emit is None,
        step.todo == todo,
{
    SocketStep { emit: None, todo }
}

/// Whether a step is the one the script calls for.
pub open spec fn is_step(phase: Phase, step: SocketStep, want: StepView) -> bool {
    &&& phase == want.phase
    &&& step.todo@ == want.todo
    &&& match want.emit {
        Some(e) => step.emit is Some && step.emit->Some_0@ == e,
        None => step.emit is None,
    }
}

impl SocketScript {
    /// Before the connection: the first thing to do is to connect.
    pub fn new(handshake: Handshake) -> (s: Self)
        ensures
            s == (SocketScript { handshake, phase: Phase::Connecting }),
    {
        SocketScript { handshake, phase: Phase::Connecting }
    }

    /// What follows from what happened.
    pub fn step(&mut self, what: Happened) -> (step: SocketStep)
        ensures
            final(self).handshake == old(self).handshake,
            is_step(
                final(self).phase,
                step,
                script(old(self).handshake, old(self).phase, what@),
            ),
    {
        let phase = self.phase;
        self.phase = Phase::Over;
        match (phase, what) {
            (Phase::Connecting, Happened::Done) => {
                self.phase = Phase::Configuring;
                quietly(Todo::SetNoDelay)
            },
            (Phase::Connecting, Happened::Failed(e)) => lost("connect failed: ", e.as_str()),
            (Phase::Configuring, Happened::Done) => {
                self.phase = Phase::Cloning;
                quietly(Todo::CloneStream)
            },
            (Phase::Configuring, Happened::Failed(e)) => lost("set_nodelay failed: ", e.as_str()),
            (Phase::Cloning, Happened::Done) => {
                match self.handshake.to_message().encode_frame() {
                    Ok(bytes) => {
                        self.phase = Phase::Greeting;
                        quietly(Todo::Write(bytes))
                    },
                    Err(_) => {
                        quietly(Todo::Stop)
                    },
                }
            },
            (Phase::Cloning, Happened::Failed(e)) => lost("clone failed: ", e.as_str()),
            (Phase::Greeting, Happened::Done) => {
                self.phase = Phase::Awaiting;
                quietly(Todo::ReadFrame)
            },
            (Phase::Greeting, Happened::Failed(e)) => lost("hello write failed: ", e.as_str()),
            (Phase::Awaiting, Happened::Read(FrameRead::Message(m))) => {
                match self.handshake.check(&m) {
                    Ok(()) => {
                        self.phase = Phase::Announcing;
                        SocketStep { emit: Some(NetEvent::Connected), todo: Todo::Announce }
                    },
                    Err(e) => SocketStep {
                        emit: Some(NetEvent::Disconnected { reason: e.message() }),
                        todo: Todo::Stop,
                    },
                }
            },
            (Phase::Awaiting, Happened::Read(FrameRead::Closed)) => SocketStep {
                emit: Some(
                    NetEvent::Disconnected { reason: "peer closed during handshake".to_owned() },
                ),
                todo: Todo::Stop,
            },
            (Phase::Awaiting, Happened::Read(FrameRead::Failed(e))) => lost(
                "handshake read failed: ",
                e.as_str(),
            ),
            (Phase::Announcing, Happened::Done) => {
                self.phase = Phase::Spawning;
                quietly(Todo::SpawnReader)
            },
            (Phase::Spawning, Happened::Done) => {
                self.phase = Phase::Pumping;
                quietly(Todo::AwaitOutbound)
            },
            (Phase::Spawning, Happened::Failed(e)) => lost("rx thread spawn failed: ", e.as_str()),
            (Phase::Pumping, Happened::Outbound(m)) => self.send(&m),
            (Phase::Pumping, Happened::Quiet) => {
                self.phase = Phase::Pumping;
                quietly(Todo::AwaitOutbound)
            },
            (Phase::Pumping, Happened::Dropped) => quietly(Todo::CloseBoth),
            (Phase::Writing { last }, Happened::Done) => {
                if last {
                    quietly(Todo::CloseWrite)
                } else {
                    self.phase = Phase::Pumping;
                    quietly(Todo::AwaitOutbound)
                }
            },
            (Phase::Writing { .. }, Happened::Failed(e)) => lost("write failed: ", e.as_str()),
            _ => quietly(Todo::Stop),
        }
    }

    fn send(&mut self, m: &Message) -> (step: SocketStep)
        ensures
            final(self).handshake == old(self).handshake,
            is_step(final(self).phase, step, outbound(m@)),
    {
        match m.encode_frame() {
            Ok(bytes) => {
                self.phase = Phase::Writing { last: matches!(m, Message::Bye) };
                quietly(Todo::Write(bytes))
            },
            Err(e) => {
                self.phase = Phase::Pumping;
                let mut text = "[not sent: ".to_owned();
                text.append(e.message().as_str());
                text.append("]");
                SocketStep { emit: Some(NetEvent::Chat { text }), todo: Todo::AwaitOutbound }
            },
        }
    }
}

/// The game is told of a connection only once a `Hello` arrived that agrees
/// with ours.
pub proof fn law_connected_needs_agreement(h: Handshake, phase: Phase, what: HappenedView)
    requires
        script(h, phase, what).emit == Some(NetEventView::Connected),
    ensures
        phase == Phase::Awaiting,
        what matches HappenedView::Read(FrameReadView::Message(m)) && verdict(h, m) is Ok,
{
}

/// Nothing that may be sent is dropped: while the link pumps, every message
/// but an oversize chat is written, in full.
pub proof fn law_messages_are_never_dropped(h: Handshake, m: MessageView)
    ensures
        too_long(m) is None ==> script(h, Phase::Pumping, HappenedView::Outbound(m)) == go(
            Phase::Writing { last: m == MessageView::Bye },
            TodoView::Write(frame_bytes(m)),
        ),
        m is Input ==> too_long(m) is None,
        m is Checksum ==> too_long(m) is None,
{
}

/// Over is over: nothing more is told or done.
pub proof fn law_over_is_final(h: Handshake, what: HappenedView)
    ensures
        script(h, Phase::Over, what) == go(Phase::Over, TodoView::Stop),
{
}

/// A failure of what was attempted ends the connection, and the game is told
/// why.
pub proof fn law_failures_are_reported(h: Handshake, phase: Phase, e: Seq<char>)
    requires
        phase == Phase::Connecting || phase == Phase::Configuring || phase == Phase::Cloning
            || phase == Phase::Greeting || phase == Phase::Spawning || phase is Writing,
    ensures
        script(h, phase, HappenedView::Failed(e)).phase == Phase::Over,
        script(h, phase, HappenedView::Failed(e)).todo == TodoView::Stop,
        script(h, phase, HappenedView::Failed(e)).emit matches Some(
            NetEventView::Disconnected { reason },
        ) && e.is_suffix_of(reason),
{
    let step = script(h, phase, HappenedView::Failed(e));
}

// ---------------------------------------------------------------------------
// Further laws.
// ---------------------------------------------------------------------------

/// A hash is held for a tick exactly where one was put down for it.
pub proof fn law_a_held_hash_was_put_down(v: Seq<(u32, u64)>, tick: u32)
    ensures
        hash_for(v, tick) is None <==> forall|i: int|
            0 <= i < v.len() ==> (#[trigger] v[i]).0 != tick,
        hash_for(v, tick) matches Some(h) ==> v.contains((tick, h)),
        forall|i: int|
            0 <= i < v.len() && v[i].0 == tick && (forall|j: int|
                0 <= j < i ==> (#[trigger] v[j]).0 != tick) ==> hash_for(v, tick) == Some(
                (#[trigger] v[i]).1,
            ),
{
    lemma_position_meaning(v, tick);
    let p = position_of(v, tick);
    if p < v.len() {
        assert(v[p] == (tick, v[p].1));
    }
    assert forall|i: int|
        0 <= i < v.len() && v[i].0 == tick && (forall|j: int|
            0 <= j < i ==> (#[trigger] v[j]).0 != tick) implies hash_for(v, tick) == Some(
        (#[trigger] v[i]).1,
    ) by {
        lemma_position(v, tick, i);
    }
}

proof fn lemma_forgotten_spares(v: Seq<(u32, u64)>, tick: u32, t: u32)
    requires
        t != tick,
    ensures
        hash_for(forgotten(v, tick), t) == hash_for(v, t),
    decreases v.len(),
{
    reveal(Seq::filter);
    if v.len() > 0 {
        let front = v.drop_last();
        let (kept, less) = (forgotten(v, tick), forgotten(front, tick));
        lemma_forgotten_spares(front, tick, t);
        lemma_position_meaning(front, t);
        lemma_position_meaning(less, t);
        let (p, q) = (position_of(front, t), position_of(less, t));
        assert forall|j: int| 0 <= j < front.len() implies v[j] == front[j] by {}
        assert forall|j: int| 0 <= j < less.len() implies kept[j] == less[j] by {}
        if p < front.len() {
            assert(front[p] == v[p]);
            assert forall|j: int| 0 <= j < p implies (#[trigger] v[j]).0 != t by {
                assert(front[j] == v[j]);
            }
            lemma_position(v, t, p);
            assert(less[q] == kept[q]);
            assert forall|j: int| 0 <= j < q implies (#[trigger] kept[j]).0 != t by {
                assert(less[j] == kept[j]);
            }
            lemma_position(kept, t, q);
        } else {
            assert forall|j: int| 0 <= j < front.len() implies (#[trigger] v[j]).0 != t by {
                assert(front[j] == v[j]);
            }
            assert forall|j: int| 0 <= j < less.len() implies (#[trigger] kept[j]).0 != t by {
                assert(less[j] == kept[j]);
            }
            if v.last().0 == t {
                lemma_position(v, t, front.len() as int);
                lemma_position(kept, t, less.len() as int);
            } else {
                lemma_position(v, t, v.len() as int);
                lemma_position(kept, t, kept.len() as int);
            }
        }
    }
}

proof fn lemma_forgotten_is_gone(v: Seq<(u32, u64)>, tick: u32)
    ensures
        hash_for(forgotten(v, tick), tick) is None,
{
    let w = forgotten(v, tick);
    assert forall|j: int| 0 <= j < w.len() implies (#[trigger] w[j]).0 != tick by {
        v.lemma_filter_pred(not_for(tick), j);
    }
    lemma_position(w, tick, w.len() as int);
}

/// Judging one tick leaves every other tick's hashes in place, on both sides,
/// and a pair that was judged is not judged again.
pub proof fn law_judging_a_tick_spares_the_others(d: DetectorView, tick: u32, t: u32)
    ensures
        t != tick ==> hash_for(compared(d, tick).local, t) == hash_for(d.local, t),
        t != tick ==> hash_for(compared(d, tick).remote, t) == hash_for(d.remote, t),
        d.reported is None && hash_for(d.local, tick) is Some && hash_for(d.remote, tick) is Some
            ==> hash_for(compared(d, tick).local, tick) is None && hash_for(
            compared(d, tick).remote,
            tick,
        ) is None,
        hash_for(d.local, tick) is None || hash_for(d.remote, tick) is None ==> compared(d, tick)
            == d,
{
    if t != tick {
        lemma_forgotten_spares(d.local, tick, t);
        lemma_forgotten_spares(d.remote, tick, t);
    }
    lemma_forgotten_is_gone(d.local, tick);
    lemma_forgotten_is_gone(d.remote, tick);
}

/// Recording a hash puts it down for its tick, over an earlier one, and leaves
/// every other tick's hash in place. Only where the window is full of other
/// ticks does one go, and that is the oldest.
pub proof fn law_recording_spares_the_others(v: Seq<(u32, u64)>, tick: u32, hash: u64, t: u32)
    ensures
        hash_for(recorded(v, tick, hash), tick) == Some(hash),
        t != tick && (v.len() < DesyncDetector::WINDOW || hash_for(v, tick) is Some || v[0].0 != t)
            ==> hash_for(recorded(v, tick, hash), t) == hash_for(v, t),
        v.len() <= DesyncDetector::WINDOW ==> recorded(v, tick, hash).len()
            <= DesyncDetector::WINDOW,
{
    lemma_recorded_is_found(v, tick, hash);
    lemma_position_meaning(v, tick);
    lemma_position_meaning(v, t);
    let (i, p) = (position_of(v, tick), position_of(v, t));
    let w = recorded(v, tick, hash);
    if t != tick && (v.len() < DesyncDetector::WINDOW || i < v.len() || v[0].0 != t) {
        if i < v.len() {
            assert forall|j: int| 0 <= j < p implies (#[trigger] w[j]).0 != t by {
                assert(v[j].0 != t);
            }
            lemma_position(w, t, p);
        } else if v.len() >= 64 {
            let shift = if p < v.len() {
                p - 1
            } else {
                v.len() as int
            };
            assert forall|j: int| 0 <= j < shift implies (#[trigger] w[j]).0 != t by {
                if j < v.len() - 1 {
                    assert(v[j + 1].0 != t);
                }
            }
            lemma_position(w, t, shift);
        } else {
            let at = if p < v.len() {
                p
            } else {
                w.len() as int
            };
            assert forall|j: int| 0 <= j < at implies (#[trigger] w[j]).0 != t by {
                if j < v.len() {
                    assert(v[j].0 != t);
                }
            }
            lemma_position(w, t, at);
        }
    }
}

/// A hash waits for its counterpart: whatever is recorded for other ticks, and
/// whatever pairs of them are judged, it is still there, unless the window is
/// full and it is the oldest in it.
pub proof fn law_a_hash_waits(d: DetectorView, tick: u32, hash: u64, t: u32)
    requires
        t != tick,
    ensures
        d.local.len() < DesyncDetector::WINDOW || hash_for(d.local, tick) is Some || d.local[0].0
            != t ==> hash_for(after_local(d, tick, hash).local, t) == hash_for(d.local, t),
        hash_for(after_local(d, tick, hash).remote, t) == hash_for(d.remote, t),
        d.remote.len() < DesyncDetector::WINDOW || hash_for(d.remote, tick) is Some || d.remote[0].0
            != t ==> hash_for(after_remote(d, tick, hash).remote, t) == hash_for(d.remote, t),
        hash_for(after_remote(d, tick, hash).local, t) == hash_for(d.local, t),
{
    law_recording_spares_the_others(d.local, tick, hash, t);
    law_recording_spares_the_others(d.remote, tick, hash, t);
    let l = DetectorView { local: recorded(d.local, tick, hash), ..d };
    let r = DetectorView { remote: recorded(d.remote, tick, hash), ..d };
    law_judging_a_tick_spares_the_others(l, tick, t);
    law_judging_a_tick_spares_the_others(r, tick, t);
}

/// When the counterpart of a waiting hash arrives, the two are compared: a
/// desync is reported exactly where they differ, naming the tick and both. A
/// hash without a counterpart reports nothing.
pub proof fn law_a_waiting_hash_is_compared(d: DetectorView, tick: u32, hash: u64)
    requires
        d.reported is None,
    ensures
        newly_reported(d, after_remote(d, tick, hash)) == (match hash_for(d.local, tick) {
            Some(ours) => if ours == hash {
                None
            } else {
                Some(Desync { tick, local_hash: ours, remote_hash: hash })
            },
            None => None,
        }),
        newly_reported(d, after_local(d, tick, hash)) == (match hash_for(d.remote, tick) {
            Some(theirs) => if theirs == hash {
                None
            } else {
                Some(Desync { tick, local_hash: hash, remote_hash: theirs })
            },
            None => None,
        }),
        after_remote(d, tick, hash).reported == newly_reported(d, after_remote(d, tick, hash)),
        after_local(d, tick, hash).reported == newly_reported(d, after_local(d, tick, hash)),
{
    lemma_recorded_is_found(d.local, tick, hash);
    lemma_recorded_is_found(d.remote, tick, hash);
}

/// Storing an input keeps every input of another slot, whatever its tick, and
/// replaces only what is a whole number of rings away.
pub proof fn law_an_input_displaces_only_its_slot(
    m: Map<u32, u32>,
    tick: u32,
    bits: u32,
    other: u32,
)
    requires
        other != tick,
    ensures
        stored(m, tick, bits).contains_key(tick) && stored(m, tick, bits)[tick] == bits,
        stored(m, tick, bits).contains_key(other) <==> m.contains_key(other) && (other - tick)
            % 256 != 0,
        stored(m, tick, bits).contains_key(other) ==> stored(m, tick, bits)[other] == m[other],
{
}

/// A tick may run exactly where both peers' inputs for it are in hand, and then
/// it runs with those two. The game is stalled exactly where the next tick may
/// not run, and the lead counts the peer's inputs from the next tick on, up to
/// the first that is missing.
pub proof fn law_a_tick_needs_both_inputs(
    b: &TickBuffer,
    tick: u32,
    inputs: Option<TickInputs>,
    ready: bool,
    stalled: bool,
    lead: u32,
)
    requires
        b.wf(),
        call_ensures(TickBuffer::inputs_for, (b, tick), inputs),
        call_ensures(TickBuffer::ready, (b, tick), ready),
        call_ensures(TickBuffer::stalled, (b,), stalled),
        call_ensures(TickBuffer::remote_lead, (b,), lead),
    ensures
        ready <==> b@.local.contains_key(tick) && b@.remote.contains_key(tick),
        inputs is Some <==> ready,
        inputs matches Some(i) ==> i.local == b@.local[tick] && i.remote == b@.remote[tick],
        stalled <==> !(b@.local.contains_key(b@.next_tick) && b@.remote.contains_key(
            b@.next_tick,
        )),
        lead > 0 <==> b@.remote.contains_key(b@.next_tick),
        b@.next_tick + lead < u32::MAX && lead < 256 ==> !b@.remote.contains_key(
            (b@.next_tick + lead) as u32,
        ),
        forall|i: int|
            0 <= i < lead && b@.next_tick + i <= u32::MAX ==> #[trigger] b@.remote.contains_key(
                (b@.next_tick + i) as u32,
            ),
{
    assert(ticks_on(b@.next_tick, 0) == b@.next_tick);
    assert forall|i: int| 0 <= i < lead && b@.next_tick + i <= u32::MAX implies
        #[trigger] b@.remote.contains_key((b@.next_tick + i) as u32) by {
        assert(ticks_on(b@.next_tick, i) == (b@.next_tick + i) as u32);
    }
    assert(b@.next_tick + lead < u32::MAX ==> ticks_on(b@.next_tick, lead as int) == (b@.next_tick
        + lead) as u32);
}

/// Ticks count up by one, and round past the last.
pub proof fn law_ticks_count_up(tick: u32)
    ensures
        tick < u32::MAX ==> ticks_on(tick, 1) == tick + 1,
        ticks_on(u32::MAX, 1) == 0,
        ticks_on(tick, 0) == tick,
{
}

/// Numbers go out most significant byte first.
pub proof fn law_numbers_are_big_endian(v: nat)
    ensures
        v < 0x1_0000 ==> {
            let b = be_bytes(v, 2);
            b.len() == 2 && b[0] * 0x100 + b[1] == v
        },
        v < 0x1_0000_0000 ==> {
            let b = be_bytes(v, 4);
            b.len() == 4 && b[0] * 0x100_0000 + b[1] * 0x1_0000 + b[2] * 0x100 + b[3] == v
        },
        v < 0x1_0000_0000_0000_0000 ==> {
            let b = be_bytes(v, 8);
            &&& b.len() == 8
            &&& b[0] * 0x100_0000_0000_0000 + b[1] * 0x1_0000_0000_0000 + b[2] * 0x100_0000_0000
                + b[3] * 0x1_0000_0000 + b[4] * 0x100_0000 + b[5] * 0x1_0000 + b[6] * 0x100 + b[7]
                == v
        },
{
    reveal_with_fuel(be_bytes, 9);
}

/// Every message starts with the tag of its kind, and its fields follow in
/// their order and nothing else; a frame is the body behind its length.
pub proof fn law_messages_are_laid_out(m: MessageView)
    ensures
        ({
            let b = body_bytes(m);
            match m {
                MessageView::Hello { protocol_version, world_seed, input_delay } => {
                    &&& b.len() == 17 && b[0] == 1
                    &&& b.subrange(1, 5) == be_bytes(protocol_version as nat, 4)
                    &&& b.subrange(5, 13) == be_bytes(world_seed as nat, 8)
                    &&& b.subrange(13, 17) == be_bytes(input_delay as nat, 4)
                },
                MessageView::Input { tick, bits } => {
                    &&& b.len() == 9 && b[0] == 2
                    &&& b.subrange(1, 5) == be_bytes(tick as nat, 4)
                    &&& b.subrange(5, 9) == be_bytes(bits as nat, 4)
                },
                MessageView::Checksum { tick, hash } => {
                    &&& b.len() == 13 && b[0] == 3
                    &&& b.subrange(1, 5) == be_bytes(tick as nat, 4)
                    &&& b.subrange(5, 13) == be_bytes(hash as nat, 8)
                },
                MessageView::Chat { text } => {
                    &&& b.len() == 3 + encode_utf8(text).len() && b[0] == 4
                    &&& b.subrange(1, 3) == be_bytes(encode_utf8(text).len(), 2)
                    &&& b.skip(3) == encode_utf8(text)
                },
                MessageView::Bye => b.len() == 1 && b[0] == 5,
            }
        }),
        frame_bytes(m).len() == body_bytes(m).len() + 2,
        frame_bytes(m).take(2) == be_bytes(body_bytes(m).len(), 2),
        frame_bytes(m).skip(2) == body_bytes(m),
        too_long(m) is Some <==> m is Chat && encode_utf8(m->text).len() > 1024,
        too_long(m) matches Some(n) ==> n == encode_utf8(m->text).len(),
{
    let b = body_bytes(m);
    lemma_be_len(body_bytes(m).len(), 2);
    match m {
        MessageView::Hello { protocol_version, world_seed, input_delay } => {
            lemma_be_len(protocol_version as nat, 4);
            lemma_be_len(world_seed as nat, 8);
            lemma_be_len(input_delay as nat, 4);
            assert(b.subrange(1, 5) =~= be_bytes(protocol_version as nat, 4));
            assert(b.subrange(5, 13) =~= be_bytes(world_seed as nat, 8));
            assert(b.subrange(13, 17) =~= be_bytes(input_delay as nat, 4));
        },
        MessageView::Input { tick, bits } => {
            lemma_be_len(tick as nat, 4);
            lemma_be_len(bits as nat, 4);
            assert(b.subrange(1, 5) =~= be_bytes(tick as nat, 4));
            assert(b.subrange(5, 9) =~= be_bytes(bits as nat, 4));
        },
        MessageView::Checksum { tick, hash } => {
            lemma_be_len(tick as nat, 4);
            lemma_be_len(hash as nat, 8);
            assert(b.subrange(1, 5) =~= be_bytes(tick as nat, 4));
            assert(b.subrange(5, 13) =~= be_bytes(hash as nat, 8));
        },
        MessageView::Chat { text } => {
            lemma_be_len(encode_utf8(text).len(), 2);
            assert(b.subrange(1, 3) =~= be_bytes(encode_utf8(text).len(), 2));
            assert(b.skip(3) =~= encode_utf8(text));
        },
        MessageView::Bye => {},
    }
    assert(frame_bytes(m).take(2) =~= be_bytes(body_bytes(m).len(), 2));
    assert(frame_bytes(m).skip(2) =~= body_bytes(m));
}

proof fn lemma_be_of_from_be(s: Seq<u8>)
    ensures
        be_bytes(from_be(s), s.len()) == s,
    decreases s.len(),
{
    if s.len() > 0 {
        lemma_be_of_from_be(s.drop_last());
        let v = from_be(s);
        assert(v / 256 == from_be(s.drop_last()) && v % 256 == s.last());
        assert(be_bytes(v, s.len()) =~= s);
    } else {
        assert(be_bytes(from_be(s), s.len()) =~= s);
    }
}

/// A body decodes only where it is, byte for byte, what the message it decodes
/// to is encoded as: nothing is guessed, skipped or cut off.
pub proof fn law_only_whole_messages_decode(buf: Seq<u8>)
    requires
        parse_body(buf) is Ok,
    ensures
        body_bytes(parse_body(buf)->Ok_0) == buf,
        too_long(parse_body(buf)->Ok_0) is None,
{
    lemma2_to64();
    lemma2_to64_rest();
    reveal_with_fuel(parse_fields, 4);
    lemma_layouts(buf);
    let m = parse_body(buf)->Ok_0;
    let tag = seq![buf[0]];
    if buf[0] == TAG_HELLO {
        let (a, b, c) = (buf.subrange(1, 5), buf.subrange(5, 13), buf.subrange(13, 17));
        lemma_be_of_from_be(a);
        lemma_be_of_from_be(b);
        lemma_be_of_from_be(c);
        lemma_from_be_bound(a);
        lemma_from_be_bound(b);
        lemma_from_be_bound(c);
        assert(buf =~= tag + a + b + c);
    } else if buf[0] == TAG_INPUT {
        let (a, b) = (buf.subrange(1, 5), buf.subrange(5, 9));
        lemma_be_of_from_be(a);
        lemma_be_of_from_be(b);
        lemma_from_be_bound(a);
        lemma_from_be_bound(b);
        assert(buf =~= tag + a + b);
    } else if buf[0] == TAG_CHECKSUM {
        let (a, b) = (buf.subrange(1, 5), buf.subrange(5, 13));
        lemma_be_of_from_be(a);
        lemma_be_of_from_be(b);
        lemma_from_be_bound(a);
        lemma_from_be_bound(b);
        assert(buf =~= tag + a + b);
    } else if buf[0] == TAG_CHAT {
        let a = buf.subrange(1, 3);
        lemma_be_of_from_be(a);
        let n = from_be(a);
        let bytes = buf.subrange(3, (3 + n) as int);
        decode_utf8_encode_utf8(bytes);
        assert(buf =~= tag + a + bytes);
    } else {
        assert(buf =~= tag);
    }
}

/// Bytes behind a whole message are counted and refused, a body that was cut
/// short says so, and a tag that is not known is named.
pub proof fn law_broken_bodies_are_told_apart(m: MessageView, extra: Seq<u8>, buf: Seq<u8>)
    requires
        too_long(m) is None,
        extra.len() > 0,
        body_bytes(m).len() + extra.len() <= usize::MAX,
    ensures
        parse_body(body_bytes(m) + extra) == Err::<MessageView, DecodeError>(
            DecodeError::TrailingBytes(extra.len() as usize),
        ),
        buf.len() > 0 && (buf[0] == 0 || buf[0] > 5) ==> parse_body(buf) == Err::<
            MessageView,
            DecodeError,
        >(DecodeError::UnknownTag(buf[0])),
        parse_body(Seq::empty()) == Err::<MessageView, DecodeError>(
            DecodeError::Truncated { need: 1, had: 0 },
        ),
        buf.len() > 0 && (buf[0] == 1 && buf.len() < 17 || buf[0] == 2 && buf.len() < 9 || buf[0]
            == 3 && buf.len() < 13 || buf[0] == 4 && buf.len() < 3) ==> parse_body(buf) is Err
            && parse_body(buf)->Err_0 is Truncated,
{
    lemma2_to64();
    lemma2_to64_rest();
    reveal_with_fuel(parse_fields, 4);
    let b = body_bytes(m);
    let all = b + extra;
    law_message_round_trip(m);
    law_messages_are_laid_out(m);
    lemma_layouts(all);
    lemma_layouts(buf);
    lemma_layouts(b);
    match m {
        MessageView::Hello { .. } => {
            assert(all.subrange(1, 5) =~= b.subrange(1, 5));
            assert(all.subrange(5, 13) =~= b.subrange(5, 13));
            assert(all.subrange(13, 17) =~= b.subrange(13, 17));
        },
        MessageView::Chat { text } => {
            let bytes = encode_utf8(text);
            assert(all.subrange(1, 3) =~= b.subrange(1, 3));
            law_be_round_trip(bytes.len(), 2);
            assert(all.subrange(3, (3 + bytes.len()) as int) =~= bytes);
            encode_utf8_valid_utf8(text);
        },
        _ => {},
    }
}

/// A peer is let in exactly where its first message is a `Hello` that names our
/// version, our seed and our delay; else the refusal names the first of these
/// that differs, ours and theirs.
pub proof fn law_a_peer_must_agree_on_everything(h: Handshake, peer: MessageView)
    ensures
        verdict(h, peer) is Ok <==> peer is Hello && peer->protocol_version == h.protocol_version
            && peer->world_seed == h.world_seed && peer->input_delay == h.input_delay,
        verdict(h, peer) matches Err(e) ==> match e {
            HandshakeError::NotHello => !(peer is Hello),
            HandshakeError::VersionMismatch { ours, theirs } => {
                &&& peer is Hello && ours == h.protocol_version
                &&& theirs == peer->protocol_version && ours != theirs
            },
            HandshakeError::SeedMismatch { ours, theirs } => {
                &&& peer is Hello && peer->protocol_version == h.protocol_version
                &&& ours == h.world_seed && theirs == peer->world_seed && ours != theirs
            },
            HandshakeError::DelayMismatch { ours, theirs } => {
                &&& peer is Hello && peer->protocol_version == h.protocol_version
                &&& peer->world_seed == h.world_seed
                &&& ours == h.input_delay && theirs == peer->input_delay && ours != theirs
            },
        },
        h.greeting() is Hello && h.greeting()->protocol_version == h.protocol_version
            && h.greeting()->world_seed == h.world_seed && h.greeting()->input_delay
            == h.input_delay,
{
}

/// Filling a buffer counts what arrived: it is full exactly when every wanted
/// byte is in place, an interruption costs nothing, and an error gives up.
pub proof fn law_filling_counts_what_arrived(filled: usize, want: usize, report: ReadReport)
    requires
        filled < want,
        report matches ReadReport::Got(n) ==> n <= want - filled,
    ensures
        match filled_after(filled, want, report) {
            Fill::More(n) => n < want && (report == ReadReport::Interrupted && n == filled || n
                > filled && report == ReadReport::Got((n - filled) as usize)),
            Fill::Full => report == ReadReport::Got((want - filled) as usize),
            Fill::Ended => filled == 0 && report == ReadReport::Got(0),
            Fill::Truncated => filled > 0 && report == ReadReport::Got(0),
            Fill::Failed => report == ReadReport::Failed,
        },
{
}

/// The length of a frame is its two leading bytes, most significant first; it
/// is accepted exactly from one to the limit.
pub proof fn law_a_frame_says_how_long_it_is(hi: u8, lo: u8, res: Result<usize, String>)
    requires
        call_ensures(frame_length, (hi, lo), res),
    ensures
        res is Ok <==> 0 < hi * 256 + lo <= 1088,
        res matches Ok(n) ==> n == hi * 256 + lo,
{
    reveal_with_fuel(from_be, 3);
}

/// The reading side passes on what the peer sends, unaltered, and reads on
/// exactly after inputs, hashes and chat. A goodbye is the peer leaving; a
/// greeting out of place, an end and an error are a lost connection.
pub proof fn law_the_reader_passes_on_what_arrives(read: FrameReadView)
    ensures
        ({
            let (event, on) = reader_answer(read);
            &&& on <==> read is Message && (read->Message_0 is Input || read->Message_0 is Checksum
                || read->Message_0 is Chat)
            &&& event is Input <==> read is Message && read->Message_0 is Input
            &&& event matches NetEventView::Input { tick, bits } ==> read
                == FrameReadView::Message(MessageView::Input { tick, bits })
            &&& event is Checksum <==> read is Message && read->Message_0 is Checksum
            &&& event matches NetEventView::Checksum { tick, hash } ==> read
                == FrameReadView::Message(MessageView::Checksum { tick, hash })
            &&& event is Chat <==> read is Message && read->Message_0 is Chat
            &&& event matches NetEventView::Chat { text } ==> read == FrameReadView::Message(
                MessageView::Chat { text },
            )
            &&& event is PeerLeft <==> read == FrameReadView::Message(MessageView::Bye)
            &&& !(event is Connected)
            &&& read matches FrameReadView::Failed(e) ==> event matches NetEventView::Disconnected {
                reason,
            } && e.is_suffix_of(reason)
        }),
{
}

/// The way to a connection: connect, switch off the delay of small writes, make
/// a second handle for reading, send our greeting, read the peer's, tell the
/// game, start the reader, then wait for something to send. A peer that does
/// not agree is turned away before any of the last three.
pub proof fn law_a_session_opens_in_order(h: Handshake, peer: MessageView)
    ensures
        ({
            let done = HappenedView::Done;
            let s1 = script(h, Phase::Connecting, done);
            let s2 = script(h, s1.phase, done);
            let s3 = script(h, s2.phase, done);
            let s4 = script(h, s3.phase, done);
            let s5 = script(h, s4.phase, HappenedView::Read(FrameReadView::Message(peer)));
            &&& s1.todo == TodoView::SetNoDelay && s1.emit is None
            &&& s2.todo == TodoView::CloneStream && s2.emit is None
            &&& s3.todo == TodoView::Write(
                frame_bytes(
                    MessageView::Hello {
                        protocol_version: h.protocol_version,
                        world_seed: h.world_seed,
                        input_delay: h.input_delay,
                    },
                ),
            ) && s3.emit is None
            &&& s4.todo == TodoView::ReadFrame && s4.emit is None
            &&& if peer == h.greeting() {
                let s6 = script(h, s5.phase, done);
                let s7 = script(h, s6.phase, done);
                &&& s5.emit == Some(NetEventView::Connected) && s5.todo == TodoView::Announce
                &&& s6.todo == TodoView::SpawnReader && s6.emit is None
                &&& s7.todo == TodoView::AwaitOutbound && s7.emit is None
                &&& s7.phase == Phase::Pumping
            } else {
                &&& s5.emit is Some && s5.emit->Some_0 is Disconnected
                &&& s5.phase == Phase::Over && s5.todo == TodoView::Stop
            }
        }),
{
}

/// What is handed over to be sent is written as a frame from which the peer
/// reads the very message, and then the next one is waited for. A goodbye is
/// the last: behind it the writing side closes. A chat that is too long is not
/// written, the game is told, and the session goes on.
pub proof fn law_what_is_sent_is_what_the_peer_reads(h: Handshake, m: MessageView)
    ensures
        ({
            let sent = script(h, Phase::Pumping, HappenedView::Outbound(m));
            if m is Chat && encode_utf8(m->text).len() > 1024 {
                &&& sent.phase == Phase::Pumping && sent.todo == TodoView::AwaitOutbound
                &&& sent.emit is Some && sent.emit->Some_0 is Chat
            } else {
                let after = script(h, sent.phase, HappenedView::Done);
                &&& sent.emit is None
                &&& sent.todo matches TodoView::Write(bytes) && from_be(bytes.take(2)) + 2
                    == bytes.len() && parse_body(bytes.skip(2)) == Ok::<MessageView, DecodeError>(m)
                &&& after.emit is None
                &&& m == MessageView::Bye ==> after.phase == Phase::Over && after.todo
                    == TodoView::CloseWrite
                &&& m != MessageView::Bye ==> after.phase == Phase::Pumping && after.todo
                    == TodoView::AwaitOutbound
            }
        }),
        script(h, Phase::Pumping, HappenedView::Quiet).phase == Phase::Pumping,
        script(h, Phase::Pumping, HappenedView::Quiet).todo == TodoView::AwaitOutbound,
        script(h, Phase::Pumping, HappenedView::Quiet).emit is None,
        script(h, Phase::Pumping, HappenedView::Dropped).phase == Phase::Over,
        script(h, Phase::Pumping, HappenedView::Dropped).todo == TodoView::CloseBoth,
{
    if too_long(m) is None {
        law_message_round_trip(m);
        law_frames_are_accepted(m);
    }
}

// ---------------------------------------------------------------------------
// What the calls do.
// ---------------------------------------------------------------------------

/// What recording a local hash does: it is compared with the peer's for the tick
/// where that is in hand, and waits where it is not. The first difference is
/// reported, once; and no hash of another tick is lost, on either side, but for
/// the oldest of a full window.
pub proof fn law_what_recording_a_local_hash_does(tick: u32, hash: u64, r: Option<Desync>, t: u32)
    requires
        t != tick,
    ensures
        forall|d: &mut DesyncDetector|
            d.wf() && #[trigger] call_ensures(DesyncDetector::record_local, (d, tick, hash), r)
                ==> {
                let (old_d, new_d) = (d@, (*final(d))@);
                let theirs = hash_for(old_d.remote, tick);
                &&& old_d.reported is None && theirs is Some && theirs->0 != hash ==> r == Some(
                    Desync { tick, local_hash: hash, remote_hash: theirs->0 },
                )
                &&& old_d.reported is Some || theirs is None || theirs->0 == hash ==> r is None
                &&& new_d.reported == (if old_d.reported is Some {
                    old_d.reported
                } else {
                    r
                })
                &&& theirs is None || old_d.reported is Some ==> hash_for(new_d.local, tick)
                    == Some(hash)
                &&& theirs is Some && old_d.reported is None ==> hash_for(new_d.local, tick) is None
                    && hash_for(new_d.remote, tick) is None
                &&& hash_for(new_d.remote, t) == hash_for(old_d.remote, t)
                &&& old_d.local.len() < 64 || old_d.local[0].0 != t ==> hash_for(new_d.local, t)
                    == hash_for(old_d.local, t)
            },
{
    assert forall|d: &mut DesyncDetector|
        d.wf() && #[trigger] call_ensures(
            DesyncDetector::record_local,
            (d, tick, hash),
            r,
        ) implies {
        let (old_d, new_d) = (d@, (*final(d))@);
        let theirs = hash_for(old_d.remote, tick);
        &&& old_d.reported is None && theirs is Some && theirs->0 != hash ==> r == Some(
            Desync { tick, local_hash: hash, remote_hash: theirs->0 },
        )
        &&& old_d.reported is Some || theirs is None || theirs->0 == hash ==> r is None
        &&& new_d.reported == (if old_d.reported is Some {
            old_d.reported
        } else {
            r
        })
        &&& theirs is None || old_d.reported is Some ==> hash_for(new_d.local, tick)
            == Some(hash)
        &&& theirs is Some && old_d.reported is None ==> hash_for(new_d.local, tick) is None
            && hash_for(new_d.remote, tick) is None
        &&& hash_for(new_d.remote, t) == hash_for(old_d.remote, t)
        &&& old_d.local.len() < 64 || old_d.local[0].0 != t ==> hash_for(new_d.local, t)
            == hash_for(old_d.local, t)
    } by {
        let put = DetectorView { local: recorded(d@.local, tick, hash), ..d@ };
        law_judging_a_tick_spares_the_others(put, tick, t);
        law_a_hash_waits(d@, tick, hash, t);
        law_recording_spares_the_others(d@.local, tick, hash, t);
        if d@.reported is None {
            law_a_waiting_hash_is_compared(d@, tick, hash);
        } else {
            law_first_desync_latches(d@, tick, hash);
        }
    }
}

/// What recording the peer's hash does: the same with the sides changed over.
pub proof fn law_what_recording_a_remote_hash_does(
    tick: u32,
    hash: u64,
    r: Option<Desync>,
    t: u32,
)
    requires
        t != tick,
    ensures
        forall|d: &mut DesyncDetector|
            d.wf() && #[trigger] call_ensures(DesyncDetector::record_remote, (d, tick, hash), r)
                ==> {
                let (old_d, new_d) = (d@, (*final(d))@);
                let ours = hash_for(old_d.local, tick);
                &&& old_d.reported is None && ours is Some && ours->0 != hash ==> r == Some(
                    Desync { tick, local_hash: ours->0, remote_hash: hash },
                )
                &&& old_d.reported is Some || ours is None || ours->0 == hash ==> r is None
                &&& new_d.reported == (if old_d.reported is Some {
                    old_d.reported
                } else {
                    r
                })
                &&& ours is None || old_d.reported is Some ==> hash_for(new_d.remote, tick)
                    == Some(hash)
                &&& ours is Some && old_d.reported is None ==> hash_for(new_d.local, tick) is None
                    && hash_for(new_d.remote, tick) is None
                &&& hash_for(new_d.local, t) == hash_for(old_d.local, t)
                &&& old_d.remote.len() < 64 || old_d.remote[0].0 != t ==> hash_for(new_d.remote, t)
                    == hash_for(old_d.remote, t)
            },
{
    assert forall|d: &mut DesyncDetector|
        d.wf() && #[trigger] call_ensures(
            DesyncDetector::record_remote,
            (d, tick, hash),
            r,
        ) implies {
        let (old_d, new_d) = (d@, (*final(d))@);
        let ours = hash_for(old_d.local, tick);
        &&& old_d.reported is None && ours is Some && ours->0 != hash ==> r == Some(
            Desync { tick, local_hash: ours->0, remote_hash: hash },
        )
        &&& old_d.reported is Some || ours is None || ours->0 == hash ==> r is None
        &&& new_d.reported == (if old_d.reported is Some {
            old_d.reported
        } else {
            r
        })
        &&& ours is None || old_d.reported is Some ==> hash_for(new_d.remote, tick)
            == Some(hash)
        &&& ours is Some && old_d.reported is None ==> hash_for(new_d.local, tick) is None
            && hash_for(new_d.remote, tick) is None
        &&& hash_for(new_d.local, t) == hash_for(old_d.local, t)
        &&& old_d.remote.len() < 64 || old_d.remote[0].0 != t ==> hash_for(new_d.remote, t)
            == hash_for(old_d.remote, t)
    } by {
        let put = DetectorView { remote: recorded(d@.remote, tick, hash), ..d@ };
        law_judging_a_tick_spares_the_others(put, tick, t);
        law_a_hash_waits(d@, tick, hash, t);
        law_recording_spares_the_others(d@.remote, tick, hash, t);
        if d@.reported is None {
            law_a_waiting_hash_is_compared(d@, tick, hash);
        } else {
            law_first_desync_latches(d@, tick, hash);
        }
    }
}

/// What submitting an input does: one for a tick that has run is ignored. Any
/// other is in hand for its side and tick, over an earlier one; the other side,
/// the tick to run and all inputs but those a whole number of rings away stay.
pub proof fn law_what_submitting_an_input_does(tick: u32, bits: u32, other: u32)
    requires
        other != tick,
    ensures
        forall|b: &mut TickBuffer|
            b.wf() && #[trigger] call_ensures(TickBuffer::submit_local, (b, tick, bits), ()) ==> {
                let (before, after) = (b@, (*final(b))@);
                &&& tick < before.next_tick ==> after == before
                &&& tick >= before.next_tick ==> {
                    &&& after.local.contains_key(tick) && after.local[tick] == bits
                    &&& (other - tick) % 256 != 0 ==> (after.local.contains_key(other)
                        <==> before.local.contains_key(other)) && (before.local.contains_key(other)
                        ==> after.local[other] == before.local[other])
                    &&& (other - tick) % 256 == 0 ==> !after.local.contains_key(other)
                }
                &&& after.remote == before.remote && after.next_tick == before.next_tick
                    && after.input_delay == before.input_delay
            },
        forall|b: &mut TickBuffer|
            b.wf() && #[trigger] call_ensures(TickBuffer::submit_remote, (b, tick, bits), ()) ==> {
                let (before, after) = (b@, (*final(b))@);
                &&& tick < before.next_tick ==> after == before
                &&& tick >= before.next_tick ==> {
                    &&& after.remote.contains_key(tick) && after.remote[tick] == bits
                    &&& (other - tick) % 256 != 0 ==> (after.remote.contains_key(other)
                        <==> before.remote.contains_key(other)) && (before.remote.contains_key(
                        other,
                    ) ==> after.remote[other] == before.remote[other])
                    &&& (other - tick) % 256 == 0 ==> !after.remote.contains_key(other)
                }
                &&& after.local == before.local && after.next_tick == before.next_tick
                    && after.input_delay == before.input_delay
            },
{
    assert forall|m: Map<u32, u32>|
        #![trigger stored(m, tick, bits)]
        stored(m, tick, bits).contains_key(tick) && stored(m, tick, bits)[tick] == bits && (stored(
            m,
            tick,
            bits,
        ).contains_key(other) <==> m.contains_key(other) && (other - tick) % 256 != 0) && (stored(
            m,
            tick,
            bits,
        ).contains_key(other) ==> stored(m, tick, bits)[other] == m[other]) by {
        law_an_input_displaces_only_its_slot(m, tick, bits, other);
    }
}

/// What running a tick does: both inputs come out and are spent, and the next
/// tick is one later. A stalled buffer gives nothing and stays as it is.
pub proof fn law_what_running_a_tick_does(r: Option<TickInputs>, t: u32)
    ensures
        forall|b: &mut TickBuffer|
            b.wf() && #[trigger] call_ensures(TickBuffer::consume, (b,), r) ==> {
                let (before, after) = (b@, (*final(b))@);
                let n = before.next_tick;
                &&& r is Some <==> before.local.contains_key(n) && before.remote.contains_key(n)
                &&& r is Some ==> r->0.local == before.local[n] && r->0.remote == before.remote[n]
                &&& r is None ==> after == before
                &&& r is Some && n < u32::MAX ==> after.next_tick == n + 1
                &&& r is Some && n == u32::MAX ==> after.next_tick == 0
                &&& r is Some ==> !after.local.contains_key(n) && !after.remote.contains_key(n)
                &&& t != n ==> (after.local.contains_key(t) <==> before.local.contains_key(t)) && (
                after.remote.contains_key(t) <==> before.remote.contains_key(t))
                &&& t != n && before.local.contains_key(t) ==> after.local[t] == before.local[t]
                &&& t != n && before.remote.contains_key(t) ==> after.remote[t] == before.remote[t]
                &&& after.input_delay == before.input_delay
            },
{
}

/// What the link takes note of: a connection, and an end, which is for good.
pub proof fn law_what_the_link_takes_note_of(event: &NetEvent)
    ensures
        forall|s: &mut LinkState| #[trigger]
            call_ensures(LinkState::observe, (s, event), ()) ==> {
                let (before, after) = (*s, *final(s));
                &&& *event is Connected ==> after.connected && after.closed == before.closed
                &&& *event is Disconnected ==> !after.connected && after.closed
                &&& !(*event is Connected || *event is Disconnected) ==> after == before
            },
        forall|s: &mut LinkState| #[trigger]
            call_ensures(LinkState::hang_up, (s,), ()) ==> {
                let after = *final(s);
                !after.connected && after.closed
            },
{
}

/// How each failure is told: the game hears what was being done, then the words
/// of the failure, and the thread stops for good.
pub proof fn law_each_failure_is_told_in_words(e: String, step: SocketStep)
    ensures
        forall|s: &mut SocketScript| #[trigger]
            call_ensures(SocketScript::step, (s, Happened::Failed(e)), step) && (s.phase
                is Connecting || s.phase is Configuring || s.phase is Cloning || s.phase is Greeting
                || s.phase is Spawning || s.phase is Writing) ==> {
                let said = match s.phase {
                    Phase::Connecting => "connect failed: "@,
                    Phase::Configuring => "set_nodelay failed: "@,
                    Phase::Cloning => "clone failed: "@,
                    Phase::Greeting => "hello write failed: "@,
                    Phase::Spawning => "rx thread spawn failed: "@,
                    _ => "write failed: "@,
                };
                &&& (*final(s)).phase is Over
                &&& step.todo is Stop
                &&& step.emit is Some && step.emit->0 is Disconnected && step.emit->0->reason@
                    == said + e@
            },
{
}

/// What the peer's first frame does: a message that greets as we do connects,
/// any other ends the session with the reason, and so does a stream that closes
/// or breaks.
pub proof fn law_the_peers_first_frame_decides(read: FrameRead, step: SocketStep)
    ensures
        forall|s: &mut SocketScript| #[trigger]
            call_ensures(SocketScript::step, (s, Happened::Read(read)), step) && s.phase is Awaiting
                ==> {
                let (h, after) = (s.handshake, *final(s));
                let agreed = read is Message && read->Message_0@ == MessageView::Hello {
                    protocol_version: h.protocol_version,
                    world_seed: h.world_seed,
                    input_delay: h.input_delay,
                };
                &&& agreed <==> after.phase is Announcing
                &&& agreed <==> step.emit is Some && step.emit->0 is Connected
                &&& agreed ==> step.todo is Announce
                &&& !agreed ==> after.phase is Over && step.todo is Stop && step.emit is Some
                    && step.emit->0 is Disconnected
                &&& read is Closed ==> step.emit->0->reason@ == "peer closed during handshake"@
                &&& read is Failed ==> step.emit->0->reason@ == "handshake read failed: "@
                    + read->Failed_0@
                &&& after.handshake == h
            },
{
}

/// What is done goes on to the next thing to do, one step at a time.
pub proof fn law_what_is_done_leads_on(step: SocketStep)
    ensures
        forall|s: &mut SocketScript| #[trigger]
            call_ensures(SocketScript::step, (s, Happened::Done), step) ==> {
                let (was, now) = (s.phase, (*final(s)).phase);
                &&& was is Connecting ==> now is Configuring && step.todo is SetNoDelay
                &&& was is Configuring ==> now is Cloning && step.todo is CloneStream
                &&& was is Cloning ==> now is Greeting && step.todo is Write
                    && step.todo->Write_0@ == frame_bytes(s.handshake.greeting())
                &&& was is Greeting ==> now is Awaiting && step.todo is ReadFrame
                &&& was is Announcing ==> now is Spawning && step.todo is SpawnReader
                &&& was is Spawning ==> now is Pumping && step.todo is AwaitOutbound
                &&& was == (Phase::Writing { last: false }) ==> now is Pumping && step.todo
                    is AwaitOutbound
                &&& was == (Phase::Writing { last: true }) ==> now is Over && step.todo
                    is CloseWrite
                &&& was is Awaiting || was is Pumping || was is Over ==> now is Over && step.todo
                    is Stop
                &&& step.emit is None
            },
{
}

/// What pumping does: a message is written as its frame, quiet waits on, and a
/// dropped handle closes both directions. Too long a chat is given back to the
/// game with its length, and pumping goes on.
pub proof fn law_what_pumping_does(what: Happened, step: SocketStep)
    ensures
        forall|s: &mut SocketScript| #[trigger]
            call_ensures(SocketScript::step, (s, what), step) && s.phase is Pumping ==> {
                let now = (*final(s)).phase;
                let oversize = what is Outbound && what->Outbound_0@ is Chat && encode_utf8(
                    what->Outbound_0@->text,
                ).len() > 1024;
                &&& oversize ==> now is Pumping && step.todo is AwaitOutbound && step.emit is Some
                    && step.emit->0 is Chat && step.emit->0->text@ == "[not sent: "@
                    + EncodeError::ChatTooLong(
                    encode_utf8(what->Outbound_0@->text).len() as usize,
                ).text() + "]"@
                &&& what is Outbound && !oversize ==> now == (Phase::Writing {
                    last: what->Outbound_0@ is Bye,
                }) && step.todo is Write && step.todo->Write_0@ == frame_bytes(what->Outbound_0@)
                &&& what is Quiet ==> now is Pumping && step.todo is AwaitOutbound
                &&& what is Dropped ==> now is Over && step.todo is CloseBoth
                &&& !oversize ==> step.emit is None
                &&& what is Unheard || what is Read || what is Failed || what is Done ==> now
                    is Over && step.todo is Stop
            },
{
}

/// What the reader tells the game, and whether it reads on: what the peer sent,
/// until the peer says goodbye, greets a second time, closes or breaks.
pub proof fn law_what_the_reader_tells(read: FrameRead, r: (NetEvent, bool))
    requires
        call_ensures(reader_step, (read,), r),
    ensures
        r.1 <==> r.0 is Input || r.0 is Checksum || r.0 is Chat,
        read is Message && read->Message_0@ is Input ==> r.0@ == (NetEventView::Input {
            tick: read->Message_0@->Input_tick,
            bits: read->Message_0@->bits,
        }),
        read is Message && read->Message_0@ is Checksum ==> r.0@ == (NetEventView::Checksum {
            tick: read->Message_0@->Checksum_tick,
            hash: read->Message_0@->hash,
        }),
        read is Message && read->Message_0@ is Chat ==> r.0@ == (NetEventView::Chat {
            text: read->Message_0@->text,
        }),
        read is Message && read->Message_0@ is Bye ==> r.0 is PeerLeft,
        read is Message && read->Message_0@ is Hello ==> r.0 is Disconnected && r.0->reason@
            == "unexpected Hello mid-stream"@,
        read is Closed ==> r.0 is Disconnected && r.0->reason@ == "peer closed the connection"@,
        read is Failed ==> r.0 is Disconnected && r.0->reason@ == "read failed: "@
            + read->Failed_0@,
{
}

/// What an unfilled part of a frame means: an end before the first byte of a
/// prefix is a clean close, an end anywhere else is not, and an error keeps its
/// words. While more can come nothing is broken.
pub proof fn law_what_a_broken_frame_means(
    part: FramePart,
    fill: Fill,
    why: String,
    r: Option<FrameRead>,
)
    requires
        call_ensures(broken_frame, (part, fill, why), r),
    ensures
        fill is More || fill is Full <==> r is None,
        fill is Ended && part is Prefix <==> r is Some && r->0 is Closed,
        fill is Truncated || (fill is Ended && part is Body) ==> r is Some && r->0 is Failed
            && r->0->Failed_0@ == "peer closed mid-frame"@,
        fill is Failed ==> r is Some && r->0 is Failed && r->0->Failed_0@ == why@,
{
}

/// What a body decodes to is what it spells, and what it does not spell is told
/// in words.
pub proof fn law_what_a_frame_decodes_to(body: &[u8], res: Result<Message, String>, m: Message)
    requires
        call_ensures(decode_frame, (body,), res),
    ensures
        body@ == body_bytes(m@) && too_long(m@) is None ==> res is Ok && res->Ok_0@ == m@,
        res is Ok ==> parse_body(body@) == Ok::<MessageView, DecodeError>(res->Ok_0@),
        res is Err ==> parse_body(body@) is Err && res->Err_0@ == parse_body(
            body@,
        )->Err_0.text(),
{
    if body@ == body_bytes(m@) && too_long(m@) is None {
        law_message_round_trip(m@);
    }
}

/// What a greeting announces, and when a peer's is accepted.
pub proof fn law_what_a_handshake_says(
    seed: u64,
    h: Handshake,
    delay: u32,
    delayed: Handshake,
    m: Message,
    peer: &Message,
    res: Result<(), HandshakeError>,
)
    requires
        call_ensures(Handshake::new, (seed,), h),
        call_ensures(Handshake::with_input_delay, (h, delay), delayed),
        call_ensures(Handshake::to_message, (delayed,), m),
        call_ensures(Handshake::check, (&delayed, peer), res),
    ensures
        h.world_seed == seed && h.protocol_version == 1 && h.input_delay == 3,
        m@ == (MessageView::Hello {
            protocol_version: 1,
            world_seed: seed,
            input_delay: delay,
        }),
        res is Ok <==> peer@ == m@,
        !(peer@ is Hello) ==> res == Err::<(), HandshakeError>(HandshakeError::NotHello),
{
}

/// What a message encodes to: its body behind its length, unless it is a chat of
/// more than 1024 bytes, which is refused with its length.
pub proof fn law_what_a_message_encodes_to(
    m: &Message,
    body: Result<Vec<u8>, EncodeError>,
    framed: Result<Vec<u8>, EncodeError>,
    decoded: Result<Message, DecodeError>,
    bytes: &[u8],
)
    requires
        call_ensures(Message::encode_body, (m,), body),
        call_ensures(Message::encode_frame, (m,), framed),
        body is Ok ==> bytes@ == body->Ok_0@,
        call_ensures(Message::decode_body, (bytes,), decoded),
    ensures
        body is Err <==> m@ is Chat && encode_utf8(m@->text).len() > 1024,
        framed is Err <==> body is Err,
        body is Err ==> body->Err_0->ChatTooLong_0 == encode_utf8(m@->text).len(),
        body is Ok ==> framed->Ok_0@ == be_bytes(body->Ok_0@.len(), 2) + body->Ok_0@,
        body is Ok ==> decoded is Ok && decoded->Ok_0@ == m@,
{
    if body is Ok {
        law_message_round_trip(m@);
    }
}

/// The tick that an input sampled now is for is the delay later than the one to
/// run, and the buffer begins with none in hand.
pub proof fn law_an_input_is_for_a_later_tick(
    delay: u32,
    fresh: TickBuffer,
    b: &TickBuffer,
    at: u32,
    next: u32,
    t: u32,
)
    requires
        call_ensures(TickBuffer::new, (delay,), fresh),
        b@.next_tick + b@.input_delay <= u32::MAX,
        call_ensures(TickBuffer::scheduled_tick, (b,), at),
        call_ensures(TickBuffer::next_tick, (b,), next),
    ensures
        at == next + b@.input_delay,
        next == b@.next_tick,
        fresh@.next_tick == 0 && fresh@.input_delay == delay,
        !fresh@.local.contains_key(t) && !fresh@.remote.contains_key(t),
{
}

/// A detector begins without a hash, and tells of the divergence it has seen.
pub proof fn law_a_detector_tells_what_it_saw(
    fresh: DesyncDetector,
    d: &DesyncDetector,
    seen: Option<Desync>,
    diverged: bool,
    t: u32,
)
    requires
        call_ensures(DesyncDetector::new, (), fresh),
        call_ensures(DesyncDetector::desync, (d,), seen),
        call_ensures(DesyncDetector::is_desynced, (d,), diverged),
    ensures
        fresh@.reported is None && fresh@.local.len() == 0 && fresh@.remote.len() == 0,
        seen == d@.reported,
        diverged <==> seen is Some,
{
}

/// What a read call leads to: bytes count up to a full buffer, none at all is
/// the end, and an interruption changes nothing.
pub proof fn law_what_a_read_leads_to(
    filled: usize,
    want: usize,
    report: ReadReport,
    next: Fill,
)
    requires
        filled < want,
        report matches ReadReport::Got(n) ==> n <= want - filled,
        call_ensures(fill_step, (filled, want, report), next),
    ensures
        report matches ReadReport::Got(n) ==> {
            &&& n > 0 && filled + n < want ==> next == Fill::More((filled + n) as usize)
            &&& n > 0 && filled + n == want ==> next is Full
            &&& n == 0 && filled == 0 ==> next is Ended
            &&& n == 0 && filled > 0 ==> next is Truncated
        },
        report is Interrupted ==> next == Fill::More(filled),
        report is Failed ==> next is Failed,
{
}

/// The sentences of the errors name the numbers that they are about.
pub proof fn law_errors_are_told_in_words(
    enc: &EncodeError,
    enc_said: String,
    dec: &DecodeError,
    dec_said: String,
    hs: &HandshakeError,
    hs_said: String,
)
    requires
        call_ensures(EncodeError::message, (enc,), enc_said),
        call_ensures(DecodeError::message, (dec,), dec_said),
        call_ensures(HandshakeError::message, (hs,), hs_said),
    ensures
        enc_said@ == "chat message is "@ + text::decimal(enc->ChatTooLong_0 as nat)
            + " bytes, limit is "@ + text::decimal(1024),
        *dec is UnknownTag ==> dec_said@ == "unknown message tag "@ + text::decimal(
            dec->UnknownTag_0 as nat,
        ),
        *dec is Truncated ==> dec_said@ == "truncated frame: needed "@ + text::decimal(
            dec->need as nat,
        ) + " bytes, had "@ + text::decimal(dec->had as nat),
        *dec is TrailingBytes ==> dec_said@ == text::decimal(dec->TrailingBytes_0 as nat)
            + " trailing bytes after message"@,
        *dec is ChatTooLong ==> dec_said@ == "chat payload "@ + text::decimal(
            dec->ChatTooLong_0 as nat,
        ) + " bytes exceeds limit"@,
        *dec is BadUtf8 ==> dec_said@ == "chat payload was not valid UTF-8"@,
        *hs matches HandshakeError::VersionMismatch { ours, theirs } ==> hs_said@
            == "protocol version mismatch: ours "@ + text::decimal(ours as nat) + ", theirs "@
            + text::decimal(theirs as nat),
        *hs matches HandshakeError::SeedMismatch { ours, theirs } ==> hs_said@
            == "world seed mismatch: ours "@ + text::decimal(ours as nat) + ", theirs "@
            + text::decimal(theirs as nat),
        *hs matches HandshakeError::DelayMismatch { ours, theirs } ==> hs_said@
            == "input delay mismatch: ours "@ + text::decimal(ours as nat) + ", theirs "@
            + text::decimal(theirs as nat),
        *hs is NotHello ==> hs_said@ == "peer's first message was not a Hello"@,
{
}

/// A divergence is told with its tick and both hashes, in sixteen hexadecimal
/// digits each.
pub proof fn law_a_desync_names_both_hashes(d: &Desync, s: String)
    requires
        call_ensures(Desync::message, (d,), s),
    ensures
        s@ == "desync at tick "@ + text::decimal(d.tick as nat) + ": local 0x"@ + text::fixed_hex(
            d.local_hash as nat,
            16,
        ) + " != remote 0x"@ + text::fixed_hex(d.remote_hash as nat, 16),
{
}

/// What does not belong to where the thread stands ends it without a word.
pub proof fn law_what_does_not_belong_ends_it(what: Happened, step: SocketStep)
    ensures
        forall|s: &mut SocketScript| #[trigger]
            call_ensures(SocketScript::step, (s, what), step) && match s.phase {
                Phase::Connecting => !(what is Done || what is Failed),
                Phase::Configuring => !(what is Done || what is Failed),
                Phase::Cloning => !(what is Done || what is Failed),
                Phase::Greeting => !(what is Done || what is Failed),
                Phase::Awaiting => !(what is Read),
                Phase::Announcing => !(what is Done),
                Phase::Spawning => !(what is Done || what is Failed),
                Phase::Pumping => !(what is Outbound || what is Quiet || what is Dropped),
                Phase::Writing { .. } => !(what is Done || what is Failed),
                Phase::Over => true,
            } ==> (*final(s)).phase is Over && step.todo is Stop && step.emit is None,
{
}

} // verus!
