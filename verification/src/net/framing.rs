//! Length-prefixed message framing over any byte stream.
//!
//! QUIC streams (and TCP) are byte streams, not message streams: a read can
//! hand you half a message or two-and-a-bit. A u32-LE length prefix restores
//! message boundaries, which is all a control channel needs on top of the
//! transport.
//!
//! `max_len` is a mandatory bound: a hostile peer — or a corrupt frame, or a
//! desynced stream — sends `0xFFFFFFFF` and a reader without one allocates
//! 4 GiB from a single packet. Pick the largest legitimate message your
//! protocol has; anything above it is refused *before* it is allocated.

use crate::text;
use vstd::prelude::*;
use vstd::slice::*;
use vstd::string::*;

verus! {

/// Why a frame could not be written or read.
#[derive(Copy, Clone, Debug, PartialEq, Eq, Structural)]
pub enum FrameError {
    /// The message is longer than the prefix can say. A silent truncating
    /// cast would desync the stream permanently.
    TooLong { len: usize },
    /// The frame claims more than the cap. The stream is left mid-frame and
    /// is not resynchronisable: treat this as fatal for the connection.
    OverCap { len: usize, max_len: usize },
    /// The stream ended inside a frame.
    Truncated,
}

impl FrameError {
    /// The sentence shown for each error.
    pub open spec fn text(self) -> Seq<char> {
        match self {
            FrameError::TooLong { len } => "message of "@ + text::decimal(len as nat)
                + " B exceeds the u32 length prefix"@,
            FrameError::OverCap { len, max_len } => "framed message of "@ + text::decimal(
                len as nat,
            ) + " B exceeds the "@ + text::decimal(max_len as nat) + " B cap"@,
            FrameError::Truncated => "early eof"@,
        }
    }

    /// A human-readable description of the error.
    pub fn message(&self) -> (s: String)
        ensures
            s@ == self.text(),
    {
        match self {
            FrameError::TooLong { len } => {
                let mut s = "message of ".to_owned();
                text::push_decimal(&mut s, *len as u128);
                s.append(" B exceeds the u32 length prefix");
                s
            },
            FrameError::OverCap { len, max_len } => {
                let mut s = "framed message of ".to_owned();
                text::push_decimal(&mut s, *len as u128);
                s.append(" B exceeds the ");
                text::push_decimal(&mut s, *max_len as u128);
                s.append(" B cap");
                s
            },
            FrameError::Truncated => "early eof".to_owned(),
        }
    }
}

/// The `n` low bytes of a number, least significant first.
pub open spec fn le_bytes(v: nat, n: nat) -> Seq<u8>
    decreases n,
{
    if n == 0 {
        Seq::empty()
    } else {
        seq![(v % 256) as u8] + le_bytes(v / 256, (n - 1) as nat)
    }
}

/// The number that bytes spell, least significant first.
pub open spec fn from_le(s: Seq<u8>) -> nat
    decreases s.len(),
{
    if s.len() == 0 {
        0
    } else {
        s[0] as nat + 256 * from_le(s.drop_first())
    }
}

proof fn lemma_le_round_trip(v: nat, n: nat)
    ensures
        le_bytes(v, n).len() == n,
        v < vstd::arithmetic::power::pow(256, n) ==> from_le(le_bytes(v, n)) == v,
    decreases n,
{
    if n > 0 {
        let m = (n - 1) as nat;
        lemma_le_round_trip(v / 256, m);
        assert(le_bytes(v, n).drop_first() =~= le_bytes(v / 256, m));
        reveal(vstd::arithmetic::power::pow);
        if v < vstd::arithmetic::power::pow(256, n) {
            let p = vstd::arithmetic::power::pow(256, m);
            assert(v / 256 < p) by (nonlinear_arith)
                requires
                    v < 256 * p,
                    v >= 0,
            ;
        }
    } else {
        reveal(vstd::arithmetic::power::pow);
    }
}

proof fn lemma_u32_prefix(v: nat)
    requires
        v <= u32::MAX,
    ensures
        le_bytes(v, 4).len() == 4,
        from_le(le_bytes(v, 4)) == v,
{
    lemma_le_round_trip(v, 4);
    reveal_with_fuel(vstd::arithmetic::power::pow, 5);
    assert(vstd::arithmetic::power::pow(256, 4) == 4_294_967_296);
}

/// A message as it goes onto a stream: its length, then its bytes.
pub open spec fn frame(data: Seq<u8>) -> Seq<u8> {
    le_bytes(data.len(), 4) + data
}

/// What a stream holds in front: one message and what follows it, or why not.
pub open spec fn unframed(bytes: Seq<u8>, max_len: nat) -> Result<(Seq<u8>, Seq<u8>), FrameError> {
    if bytes.len() < 4 {
        Err(FrameError::Truncated)
    } else {
        let len = from_le(bytes.take(4));
        if len > max_len {
            Err(FrameError::OverCap { len: len as usize, max_len: max_len as usize })
        } else if bytes.len() < 4 + len {
            Err(FrameError::Truncated)
        } else {
            Ok((bytes.subrange(4, 4 + len as int), bytes.skip(4 + len as int)))
        }
    }
}

/// The prefix of a message of `len` bytes.
pub fn length_prefix(len: usize) -> (res: Result<Vec<u8>, FrameError>)
    ensures
        match res {
            Ok(prefix) => len <= u32::MAX && prefix@ == le_bytes(len as nat, 4),
            Err(e) => len > u32::MAX && e == (FrameError::TooLong { len }),
        },
{
    if len as u64 > u32::MAX as u64 {
        return Err(FrameError::TooLong { len });
    }
    let n: u32 = len as u32;
    let mut prefix: Vec<u8> = Vec::new();
    prefix.push((n % 256) as u8);
    prefix.push((n / 256 % 256) as u8);
    prefix.push((n / 256 / 256 % 256) as u8);
    prefix.push((n / 256 / 256 / 256 % 256) as u8);
    proof {
        reveal_with_fuel(le_bytes, 5);
    }
    Ok(prefix)
}

/// How many bytes a frame's prefix announces, refused above the cap.
pub fn body_length(prefix: &[u8], max_len: usize) -> (res: Result<usize, FrameError>)
    requires
        prefix@.len() == 4,
    ensures
        match res {
            Ok(len) => len == from_le(prefix@) && len <= max_len,
            Err(e) => from_le(prefix@) > max_len && e == (FrameError::OverCap {
                len: from_le(prefix@) as usize,
                max_len,
            }),
        },
{
    let len: u32 = prefix[0] as u32 + 256 * (prefix[1] as u32) + 65_536 * (prefix[2] as u32)
        + 16_777_216 * (prefix[3] as u32);
    proof {
        reveal_with_fuel(from_le, 5);
    }
    let len: usize = len as usize;
    if len > max_len {
        return Err(FrameError::OverCap { len, max_len });
    }
    Ok(len)
}

/// Write `data` as one length-prefixed frame to the end of `out`.
pub fn write_msg(out: &mut Vec<u8>, data: &[u8]) -> (res: Result<(), FrameError>)
    ensures
        match res {
            Ok(()) => data@.len() <= u32::MAX && final(out)@ == old(out)@ + frame(data@),
            Err(e) => {
                &&& data@.len() > u32::MAX
                &&& e == (FrameError::TooLong { len: data@.len() as usize })
                &&& final(out)@ == old(out)@
            },
        },
{
    let mut prefix = match length_prefix(data.len()) {
        Ok(p) => p,
        Err(e) => {
            return Err(e);
        },
    };
    out.append(&mut prefix);
    out.extend_from_slice(data);
    Ok(())
}

/// Read one length-prefixed frame off the front of `bytes`, refusing anything
/// longer than `max_len` before it is allocated. Gives the message and how
/// many bytes it took up.
pub fn read_msg(bytes: &[u8], max_len: usize) -> (res: Result<(Vec<u8>, usize), FrameError>)
    ensures
        match res {
            Ok((data, used)) => used <= bytes@.len() && unframed(bytes@, max_len as nat) == Ok::<
                (Seq<u8>, Seq<u8>),
                FrameError,
            >((data@, bytes@.skip(used as int))),
            Err(e) => unframed(bytes@, max_len as nat) == Err::<(Seq<u8>, Seq<u8>), FrameError>(e),
        },
{
    if bytes.len() < 4 {
        return Err(FrameError::Truncated);
    }
    let prefix: &[u8] = slice_subrange(bytes, 0, 4);
    let len: usize = match body_length(prefix, max_len) {
        Ok(n) => n,
        Err(e) => {
            return Err(e);
        },
    };
    if bytes.len() - 4 < len {
        return Err(FrameError::Truncated);
    }
    let body = slice_subrange(bytes, 4, 4 + len);
    let data = slice_to_vec(body);
    Ok((data, 4 + len))
}

// ---------------------------------------------------------------------------
// Laws.
// ---------------------------------------------------------------------------

/// Framing restores message boundaries: a written message is read back whole,
/// up to and at the cap, and whatever follows it on the stream is untouched.
pub proof fn law_a_message_reads_back(data: Seq<u8>, rest: Seq<u8>, max_len: nat)
    requires
        data.len() <= u32::MAX,
        data.len() <= max_len,
    ensures
        unframed(frame(data) + rest, max_len) == Ok::<(Seq<u8>, Seq<u8>), FrameError>((data, rest)),
{
    let bytes = frame(data) + rest;
    lemma_u32_prefix(data.len());
    assert(bytes.take(4) =~= le_bytes(data.len(), 4));
    assert(bytes.subrange(4, 4 + data.len() as int) =~= data);
    assert(bytes.skip(4 + data.len() as int) =~= rest);
}

/// A message over the cap is refused, whether or not its bytes are there.
pub proof fn law_a_message_over_the_cap_is_refused(data: Seq<u8>, rest: Seq<u8>, max_len: nat)
    requires
        max_len < data.len() <= u32::MAX,
    ensures
        unframed(frame(data) + rest, max_len) is Err,
        unframed(le_bytes(data.len(), 4) + rest, max_len) == unframed(frame(data) + rest, max_len),
{
    lemma_u32_prefix(data.len());
    assert((frame(data) + rest).take(4) =~= le_bytes(data.len(), 4));
    assert((le_bytes(data.len(), 4) + rest).take(4) =~= le_bytes(data.len(), 4));
}

/// A frame that is cut short is an error, never a short message.
pub proof fn law_a_cut_frame_is_an_error(data: Seq<u8>, max_len: nat, n: int)
    requires
        data.len() <= u32::MAX,
        data.len() <= max_len,
        0 <= n < frame(data).len(),
    ensures
        unframed(frame(data).take(n), max_len) == Err::<(Seq<u8>, Seq<u8>), FrameError>(
            FrameError::Truncated,
        ),
{
    lemma_u32_prefix(data.len());
    if n >= 4 {
        assert(frame(data).take(n).take(4) =~= le_bytes(data.len(), 4));
    }
}

/// The prefix of a message is its length in four bytes, the least significant
/// first; a length that they cannot say is refused.
pub proof fn law_the_prefix_says_the_length(len: usize, res: Result<Vec<u8>, FrameError>)
    requires
        call_ensures(length_prefix, (len,), res),
    ensures
        len <= 4_294_967_295 ==> res is Ok && res->Ok_0@.len() == 4 && len == res->Ok_0@[0] + 256
            * res->Ok_0@[1] + 65_536 * res->Ok_0@[2] + 16_777_216 * res->Ok_0@[3],
        len > 4_294_967_295 ==> res == Err::<Vec<u8>, FrameError>(FrameError::TooLong { len }),
{
    if len <= u32::MAX {
        let b = le_bytes(len as nat, 4);
        lemma_u32_prefix(len as nat);
        reveal_with_fuel(from_le, 5);
        assert(b.drop_first()[0] == b[1]);
        assert(b.drop_first().drop_first()[0] == b[2]);
        assert(b.drop_first().drop_first().drop_first()[0] == b[3]);
    }
}

/// A frame is its prefix and then its message, byte for byte.
pub proof fn law_a_frame_is_prefix_and_message(data: Seq<u8>, i: int)
    ensures
        frame(data).len() == data.len() + 4,
        frame(data).skip(4) == data,
        data.len() <= u32::MAX ==> from_le(frame(data).take(4)) == data.len(),
        0 <= i < data.len() ==> frame(data)[4 + i] == data[i],
{
    lemma_le_round_trip(data.len(), 4);
    assert(frame(data).skip(4) =~= data);
    assert(frame(data).take(4) =~= le_bytes(data.len(), 4));
    if data.len() <= u32::MAX {
        lemma_u32_prefix(data.len());
    }
}

/// What reading gives: the four bytes in front are the length. A stream that
/// ends inside them, or inside the message, is cut short; a length over the cap
/// is refused, and the refusal says both; else the message is the bytes that
/// follow, as many as announced, and no others are used up.
pub proof fn law_reading_follows_the_prefix(
    bytes: &[u8],
    max_len: usize,
    res: Result<(Vec<u8>, usize), FrameError>,
    len: int,
)
    requires
        call_ensures(read_msg, (bytes, max_len), res),
        bytes@.len() >= 4 ==> len == bytes@[0] + 256 * bytes@[1] + 65_536 * bytes@[2] + 16_777_216
            * bytes@[3],
    ensures
        bytes@.len() < 4 ==> res == Err::<(Vec<u8>, usize), FrameError>(FrameError::Truncated),
        bytes@.len() >= 4 && len > max_len ==> res is Err && res->Err_0 is OverCap
            && res->Err_0->OverCap_len == len && res->Err_0->max_len == max_len,
        bytes@.len() >= 4 && len <= max_len && bytes@.len() < 4 + len ==> res == Err::<
            (Vec<u8>, usize),
            FrameError,
        >(FrameError::Truncated),
        bytes@.len() >= 4 && len <= max_len && bytes@.len() >= 4 + len ==> res is Ok
            && res->Ok_0.0@ == bytes@.subrange(4, 4 + len) && res->Ok_0.1 == 4 + len,
{
    if bytes@.len() >= 4 {
        let b = bytes@.take(4);
        reveal_with_fuel(from_le, 5);
        assert(b.drop_first()[0] == b[1]);
        assert(b.drop_first().drop_first()[0] == b[2]);
        assert(b.drop_first().drop_first().drop_first()[0] == b[3]);
        assert(from_le(b) == len);
        if let Ok((data, used)) = res {
            assert(bytes@.skip(used as int).len() == bytes@.skip(4 + len).len());
        }
    }
}

/// The sentences of the errors name the numbers they are about.
pub proof fn law_errors_name_their_numbers(e: &FrameError, s: String)
    requires
        call_ensures(FrameError::message, (e,), s),
    ensures
        *e is TooLong ==> s@ == "message of "@ + text::decimal(e->TooLong_len as nat)
            + " B exceeds the u32 length prefix"@,
        *e is OverCap ==> s@ == "framed message of "@ + text::decimal(e->OverCap_len as nat)
            + " B exceeds the "@ + text::decimal(e->max_len as nat) + " B cap"@,
        *e is Truncated ==> s@ == "early eof"@,
{
}

/// What writing a message does: behind what is there goes the length in four
/// bytes, the least significant first, then the message; a message that is too
/// long leaves everything as it was.
pub proof fn law_what_writing_a_message_does(data: &[u8], res: Result<(), FrameError>)
    ensures
        forall|out: &mut Vec<u8>| #[trigger]
            call_ensures(write_msg, (out, data), res) ==> {
                let (before, after) = (out@, (*final(out))@);
                let n = before.len() as int;
                &&& res is Ok <==> data@.len() <= 4_294_967_295
                &&& res is Ok ==> after.len() == n + 4 + data@.len() && after.take(n) == before
                    && after.skip(n + 4) == data@ && from_le(after.subrange(n, n + 4))
                    == data@.len()
                &&& res is Err ==> after == before && res->Err_0 == (FrameError::TooLong {
                    len: data@.len() as usize,
                })
            },
{
    assert forall|out: &mut Vec<u8>| #[trigger]
        call_ensures(write_msg, (out, data), res) && res is Ok implies {
        let (before, after) = (out@, (*final(out))@);
        let n = before.len() as int;
        after.len() == n + 4 + data@.len() && after.take(n) == before && after.skip(n + 4) == data@
            && from_le(after.subrange(n, n + 4)) == data@.len()
    } by {
        let n = out@.len() as int;
        let after = out@ + frame(data@);
        lemma_u32_prefix(data@.len());
        assert(after.take(n) =~= out@);
        assert(after.skip(n + 4) =~= data@);
        assert(after.subrange(n, n + 4) =~= le_bytes(data@.len(), 4));
    }
}

/// A prefix announces the length that its four bytes spell, the least
/// significant first; above the cap it is refused with both.
pub proof fn law_a_prefix_is_held_to_the_cap(
    prefix: &[u8],
    max_len: usize,
    res: Result<usize, FrameError>,
)
    requires
        prefix@.len() == 4,
        call_ensures(body_length, (prefix, max_len), res),
    ensures
        ({
            let len = prefix@[0] + 256 * prefix@[1] + 65_536 * prefix@[2] + 16_777_216
                * prefix@[3];
            &&& len <= max_len ==> res is Ok && res->Ok_0 == len
            &&& len > max_len ==> res is Err && res->Err_0 is OverCap && res->Err_0->OverCap_len
                == len && res->Err_0->max_len == max_len
        }),
{
    let b = prefix@;
    reveal_with_fuel(from_le, 5);
    assert(b.drop_first()[0] == b[1]);
    assert(b.drop_first().drop_first()[0] == b[2]);
    assert(b.drop_first().drop_first().drop_first()[0] == b[3]);
}

} // verus!
