//! Bit-level writing and reading for the replication wire format.
//!
//! A bit stream is modelled as a `Seq<bool>`, first bit first. Within a byte
//! the most significant bit comes first, so a hexdump of the output reads in
//! the order of the code that wrote it.
//!
//! Writing cannot fail. Reading parses bytes that arrived over a network, so
//! every read returns a `Result`, and running off the end is an ordinary
//! error.

use vstd::arithmetic::div_mod::*;
use vstd::arithmetic::power2::*;
use vstd::bits::*;
use vstd::prelude::*;

verus! {

/// Why a read failed.
#[derive(Copy, Clone, Debug, PartialEq, Eq, Structural)]
pub enum BitError {
    /// Ran past the end of the buffer. The packet is truncated or the
    /// two ends disagree about the format.
    Truncated,
    /// A varint's continuation bits ran longer than the type allows,
    /// which means the stream is misaligned rather than merely short.
    VarintTooLong,
    /// A quantised value decoded outside the range its parameters allow.
    OutOfRange,
}

impl BitError {
    /// The sentence shown for each error.
    pub open spec fn text(self) -> Seq<char> {
        match self {
            BitError::Truncated => "packet ended mid-value"@,
            BitError::VarintTooLong => "varint longer than its type permits"@,
            BitError::OutOfRange => "quantised value outside its declared range"@,
        }
    }

    /// A human-readable description of the error.
    pub fn message(&self) -> (s: String)
        ensures
            s@ == self.text(),
    {
        match self {
            BitError::Truncated => "packet ended mid-value".to_owned(),
            BitError::VarintTooLong => "varint longer than its type permits".to_owned(),
            BitError::OutOfRange => "quantised value outside its declared range".to_owned(),
        }
    }
}

// ---------------------------------------------------------------------------
// The model: bits, bytes and numbers.
// ---------------------------------------------------------------------------

/// Bit `k` of a byte, counted from the most significant.
pub open spec fn byte_bit(b: u8, k: int) -> bool {
    (b >> ((7 - k) as u8)) & 1u8 == 1u8
}

/// The bits of a byte string, first byte first, most significant bit first.
pub open spec fn bits_of(bytes: Seq<u8>) -> Seq<bool> {
    Seq::new(bytes.len() * 8, |i: int| byte_bit(bytes[i / 8], i % 8))
}

/// The `n` low bits of `v`, most significant first.
pub open spec fn to_bits(v: nat, n: nat) -> Seq<bool>
    decreases n,
{
    if n == 0 {
        Seq::empty()
    } else {
        to_bits(v / 2, (n - 1) as nat).push(v % 2 == 1)
    }
}

/// The number that a bit string spells, most significant bit first.
pub open spec fn from_bits(s: Seq<bool>) -> nat
    decreases s.len(),
{
    if s.len() == 0 {
        0
    } else {
        2 * from_bits(s.drop_last()) + if s.last() {
            1nat
        } else {
            0nat
        }
    }
}

/// `n` clear bits.
pub open spec fn zeros(n: nat) -> Seq<bool> {
    Seq::new(n, |i: int| false)
}

/// The bytes of a 7-bits-per-byte varint, least significant group first; the
/// top bit of a byte says that another follows.
pub open spec fn varint_bytes(v: nat) -> Seq<nat>
    decreases v,
{
    if v < 128 {
        seq![v]
    } else {
        seq![128 + v % 128] + varint_bytes(v / 128)
    }
}

/// Eight bits for each byte in turn.
pub open spec fn octets(bytes: Seq<nat>) -> Seq<bool>
    decreases bytes.len(),
{
    if bytes.len() == 0 {
        Seq::empty()
    } else {
        to_bits(bytes[0], 8) + octets(bytes.drop_first())
    }
}

/// The bits of a varint.
pub open spec fn varint_bits(v: nat) -> Seq<bool> {
    octets(varint_bytes(v))
}

/// What reading a varint off the front of `s` gives, `k` bytes of it having
/// been read already: the value or the error, and the bits left unread.
///
/// The tenth byte can only carry one meaningful bit; anything past that means
/// the stream is misaligned, not just long.
pub open spec fn parse_varint(s: Seq<bool>, k: nat) -> (Result<nat, BitError>, Seq<bool>)
    decreases 10 - k,
{
    if k >= 10 {
        (Err(BitError::VarintTooLong), s)
    } else if s.len() < 8 {
        (Err(BitError::Truncated), Seq::empty())
    } else {
        let b = from_bits(s.take(8));
        let rest = s.skip(8);
        if k == 9 && b % 128 > 1 {
            (Err(BitError::VarintTooLong), rest)
        } else if b < 128 {
            (Ok(b), rest)
        } else {
            match parse_varint(rest, k + 1) {
                (Ok(v), r) => (Ok((b - 128) as nat + 128 * v), r),
                (Err(e), r) => (Err(e), r),
            }
        }
    }
}

/// Zig-zag: small magnitudes of either sign map to small naturals.
pub open spec fn zigzag(v: int) -> nat {
    if v >= 0 {
        (2 * v) as nat
    } else {
        (-2 * v - 1) as nat
    }
}

/// The signed value that a zig-zag code stands for.
pub open spec fn unzigzag(n: nat) -> int {
    if n % 2 == 0 {
        n as int / 2
    } else {
        -((n as int + 1) / 2)
    }
}

// ---------------------------------------------------------------------------
// Writing.
// ---------------------------------------------------------------------------

/// Writes values into a growable bit buffer, most-significant bit first.
pub struct BitWriter {
    bytes: Vec<u8>,
    /// Bits used in the final byte, 0..8. Zero means the buffer is
    /// byte-aligned and a new byte is needed for the next write.
    bits_in_last: u8,
}

impl View for BitWriter {
    type V = Seq<bool>;

    /// The bits written so far.
    closed spec fn view(&self) -> Seq<bool> {
        bits_of(self.bytes@).take(self.used())
    }
}

impl BitWriter {
    spec fn used(&self) -> int {
        if self.bits_in_last == 0 {
            (self.bytes@.len() * 8) as int
        } else {
            (self.bytes@.len() - 1) * 8 + self.bits_in_last
        }
    }

    /// A partial byte exists exactly where bits are counted in it, and the
    /// bits past the end are clear.
    pub closed spec fn wf(&self) -> bool {
        &&& self.bits_in_last < 8
        &&& self.bits_in_last != 0 ==> self.bytes@.len() > 0
        &&& bits_of(self.bytes@).skip(self.used()) == zeros(
            (self.bytes@.len() * 8 - self.used()) as nat,
        )
    }

    /// An empty writer.
    pub fn new() -> (w: Self)
        ensures
            w.wf(),
            w@ == Seq::<bool>::empty(),
    {
        let w = BitWriter { bytes: Vec::new(), bits_in_last: 0 };
        assert(bits_of(w.bytes@).skip(0) =~= zeros(0));
        w
    }

    /// Empty the buffer, keeping its allocation.
    pub fn clear(&mut self)
        ensures
            final(self).wf(),
            final(self)@ == Seq::<bool>::empty(),
    {
        self.bytes.clear();
        self.bits_in_last = 0;
        assert(bits_of(self.bytes@).skip(0) =~= zeros(0));
    }

    /// Bits written so far.
    pub fn bit_len(&self) -> (n: usize)
        requires
            self.wf(),
            self@.len() + 8 <= usize::MAX,
        ensures
            n == self@.len(),
    {
        if self.bits_in_last == 0 {
            self.bytes.len() * 8
        } else {
            (self.bytes.len() - 1) * 8 + self.bits_in_last as usize
        }
    }

    /// Bytes the finished buffer occupies, including any partial byte.
    pub fn byte_len(&self) -> (n: usize)
        requires
            self.wf(),
        ensures
            n == (self@.len() + 7) / 8,
    {
        self.bytes.len()
    }

    /// Write a single bit. A boolean costs exactly this.
    pub fn write_bit(&mut self, set: bool)
        requires
            old(self).wf(),
        ensures
            final(self).wf(),
            final(self)@ == old(self)@.push(set),
    {
        let ghost before = *self;
        if self.bits_in_last == 0 {
            self.bytes.push(0);
        }
        let last: usize = self.bytes.len() - 1;
        let k: u8 = self.bits_in_last;
        let b: u8 = self.bytes[last];
        if set {
            self.bytes[last] = b | (1u8 << (7 - k));
        }
        self.bits_in_last = (self.bits_in_last + 1) % 8;
        proof {
            let c: u8 = self.bytes@[last as int];
            let n = before.used();
            // The bit being written is still clear, and setting it moves no other.
            assert forall|i: int| 0 <= i < 8 implies byte_bit(c, i) == (if i == k && set {
                true
            } else {
                byte_bit(b, i)
            }) by {
                let s: u8 = (7 - i) as u8;
                assert(k < 8 && s < 8 ==> ((b | (1u8 << (7 - k) as u8)) >> s) & 1u8 == (if s == (7
                    - k) as u8 {
                    1u8
                } else {
                    (b >> s) & 1u8
                })) by (bit_vector);
            }
            assert forall|j: int| k <= j < 8 implies !byte_bit(b, j) by {
                if before.bits_in_last == 0 {
                    let s: u8 = (7 - j) as u8;
                    assert(s < 8 ==> (0u8 >> s) & 1u8 == 0u8) by (bit_vector);
                } else {
                    let i = last * 8 + j;
                    let tail = bits_of(before.bytes@).skip(n);
                    assert(tail[i - n] == zeros((before.bytes@.len() * 8 - n) as nat)[i - n]);
                }
            }
            assert(bits_of(self.bytes@).skip(n + 1) =~= zeros(
                (self.bytes@.len() * 8 - (n + 1)) as nat,
            ));
        }
    }

    /// Write the low `count` bits of `value`, most significant first.
    ///
    /// `count` above 64 is a caller bug; a wire format is fixed at compile
    /// time, so this cannot be driven by remote input.
    pub fn write_bits(&mut self, value: u64, count: u32)
        requires
            old(self).wf(),
            count <= 64,
        ensures
            final(self).wf(),
            final(self)@ == old(self)@ + to_bits(value as nat, count as nat),
    {
        let mut i: u32 = count;
        proof {
            lemma_to_bits_len(value as nat, count as nat);
        }
        while i > 0
            invariant
                self.wf(),
                i <= count <= 64,
                to_bits(value as nat, count as nat).len() == count,
                self@ == old(self)@ + to_bits(value as nat, count as nat).take(count - i),
            decreases i,
        {
            i = i - 1;
            let bit = (value >> i) & 1 == 1;
            self.write_bit(bit);
            proof {
                lemma_to_bits_index(value as nat, count as nat, count - 1 - i);
                lemma_u64_shr_is_div(value, i as u64);
                let shifted: u64 = value >> i;
                assert(shifted & 1 == shifted % 2) by (bit_vector);
            }
        }
        assert(to_bits(value as nat, count as nat).take(count as int) =~= to_bits(
            value as nat,
            count as nat,
        ));
    }

    /// Write a `u64` as a 7-bits-per-byte varint.
    ///
    /// Small numbers cost one byte, which is what makes an entity index
    /// cheap.
    pub fn write_varint(&mut self, value: u64)
        requires
            old(self).wf(),
        ensures
            final(self).wf(),
            final(self)@ == old(self)@ + varint_bits(value as nat),
    {
        let mut rest: u64 = value;
        let ghost mut done = Seq::<bool>::empty();
        loop
            invariant
                self.wf(),
                self@ == old(self)@ + done,
                done + varint_bits(rest as nat) == varint_bits(value as nat),
            decreases rest,
        {
            let byte: u64 = rest & 0x7f;
            let next: u64 = rest >> 7;
            assert(byte == rest % 128 && next == rest / 128) by (bit_vector)
                requires
                    byte == rest & 0x7f,
                    next == rest >> 7,
            ;
            proof {
                lemma_varint_bits_step(rest as nat);
            }
            if next == 0 {
                self.write_bits(byte, 8);
                return;
            }
            assert(byte | 0x80 == byte + 128) by (bit_vector)
                requires
                    byte < 128,
            ;
            self.write_bits(byte | 0x80, 8);
            proof {
                let group = to_bits((128 + byte) as nat, 8);
                assert((done + group) + varint_bits(next as nat) =~= done + (group + varint_bits(
                    next as nat,
                )));
                done = done + group;
            }
            rest = next;
        }
    }

    /// Write a signed value zig-zag encoded, so small negatives are as
    /// cheap as small positives.
    pub fn write_varint_signed(&mut self, value: i64)
        requires
            old(self).wf(),
        ensures
            final(self).wf(),
            final(self)@ == old(self)@ + varint_bits(zigzag(value as int)),
    {
        let code: u64 = ((value << 1) ^ (value >> 63)) as u64;
        assert(value >= 0 ==> code == 2 * value) by (bit_vector)
            requires
                code == ((value << 1) ^ (value >> 63)) as u64,
        ;
        assert(value < 0 ==> code == -2 * value - 1) by (bit_vector)
            requires
                code == ((value << 1) ^ (value >> 63)) as u64,
        ;
        self.write_varint(code);
    }

    /// Finish, padding the last byte with zeros.
    pub fn finish(self) -> (bytes: Vec<u8>)
        requires
            self.wf(),
        ensures
            bytes@.len() == (self@.len() + 7) / 8,
            bits_of(bytes@) == self@ + zeros((8 * bytes@.len() - self@.len()) as nat),
    {
        proof {
            lemma_finished(&self);
        }
        self.bytes
    }

    /// Borrow the buffer without consuming the writer, for a caller that
    /// encodes into a reused writer each tick.
    pub fn as_bytes(&self) -> (bytes: &[u8])
        requires
            self.wf(),
        ensures
            bytes@.len() == (self@.len() + 7) / 8,
            bits_of(bytes@) == self@ + zeros((8 * bytes@.len() - self@.len()) as nat),
    {
        proof {
            lemma_finished(self);
        }
        self.bytes.as_slice()
    }
}

impl Default for BitWriter {
    /// An empty writer.
    fn default() -> (w: Self)
        ensures
            w.wf(),
            w@ == Seq::<bool>::empty(),
    {
        BitWriter::new()
    }
}

// ---------------------------------------------------------------------------
// Reading.
// ---------------------------------------------------------------------------

/// Reads values written by a [`BitWriter`].
pub struct BitReader<'a> {
    bytes: &'a [u8],
    bit_pos: usize,
}

impl<'a> View for BitReader<'a> {
    type V = Seq<bool>;

    /// The bits not read yet, including the final byte's padding.
    closed spec fn view(&self) -> Seq<bool> {
        bits_of(self.bytes@).skip(self.bit_pos as int)
    }
}

impl<'a> BitReader<'a> {
    /// The position lies within the buffer, and bit positions fit a `usize`.
    pub closed spec fn wf(&self) -> bool {
        &&& self.bytes@.len() * 8 <= usize::MAX
        &&& self.bit_pos <= self.bytes@.len() * 8
    }

    /// Bits consumed so far.
    pub closed spec fn pos(&self) -> nat {
        self.bit_pos as nat
    }

    /// Start reading at the first bit of `bytes`.
    pub fn new(bytes: &'a [u8]) -> (r: Self)
        requires
            bytes@.len() * 8 <= usize::MAX,
        ensures
            r.wf(),
            r.pos() == 0,
            r@ == bits_of(bytes@),
    {
        let r = BitReader { bytes, bit_pos: 0 };
        r
    }

    /// Bits consumed so far.
    pub fn bit_pos(&self) -> (n: usize)
        requires
            self.wf(),
        ensures
            n == self.pos(),
    {
        self.bit_pos
    }

    /// Bits left unread, including the final byte's padding.
    pub fn bits_remaining(&self) -> (n: usize)
        requires
            self.wf(),
        ensures
            n == self@.len(),
    {
        self.bytes.len() * 8 - self.bit_pos
    }

    /// Read one bit.
    pub fn read_bit(&mut self) -> (res: Result<bool, BitError>)
        requires
            old(self).wf(),
        ensures
            final(self).wf(),
            final(self).pos() + final(self)@.len() == old(self).pos() + old(self)@.len(),
            old(self)@.len() == 0 ==> res == Err::<bool, BitError>(BitError::Truncated)
                && final(self)@ == old(self)@,
            old(self)@.len() > 0 ==> res == Ok::<bool, BitError>(old(self)@[0]) && final(self)@
                == old(self)@.skip(1),
    {
        if self.bit_pos >= self.bytes.len() * 8 {
            return Err(BitError::Truncated);
        }
        let byte: u8 = self.bytes[self.bit_pos / 8];
        let shift: u8 = (7 - self.bit_pos % 8) as u8;
        let bit = (byte >> shift) & 1 == 1;
        self.bit_pos = self.bit_pos + 1;
        Ok(bit)
    }

    /// Read `count` bits into the low bits of a `u64`. Where fewer are left
    /// they are all consumed.
    pub fn read_bits(&mut self, count: u32) -> (res: Result<u64, BitError>)
        requires
            old(self).wf(),
            count <= 64,
        ensures
            final(self).wf(),
            final(self).pos() + final(self)@.len() == old(self).pos() + old(self)@.len(),
            match res {
                Ok(v) => {
                    &&& old(self)@.len() >= count
                    &&& v == from_bits(old(self)@.take(count as int))
                    &&& v < pow2(count as nat)
                    &&& final(self)@ == old(self)@.skip(count as int)
                },
                Err(e) => {
                    &&& old(self)@.len() < count
                    &&& e == BitError::Truncated
                    &&& final(self)@ == Seq::<bool>::empty()
                },
            },
    {
        let mut out: u64 = 0;
        let mut i: u32 = 0;
        let ghost all = self@;
        while i < count
            invariant
                self.wf(),
                i <= count <= 64,
                i <= all.len(),
                self@ == all.skip(i as int),
                self.pos() + self@.len() == old(self).pos() + old(self)@.len(),
                all == old(self)@,
                out == from_bits(all.take(i as int)),
            decreases count - i,
        {
            match self.read_bit() {
                Err(e) => {
                    return Err(e);
                },
                Ok(bit) => {
                    let b: u64 = if bit { 1 } else { 0 };
                    proof {
                        lemma_from_bits_bound(all.take(i as int));
                        lemma2_to64();
                        lemma2_to64_rest();
                        if i < 63 {
                            lemma_pow2_strictly_increases(i as nat, 63);
                        }
                        assert((out << 1) | b == 2 * out + b) by (bit_vector)
                            requires
                                out < 0x8000_0000_0000_0000,
                                b <= 1,
                        ;
                        assert(all.take(i + 1).drop_last() =~= all.take(i as int));
                    }
                    out = (out << 1) | b;
                    i = i + 1;
                },
            }
        }
        proof {
            lemma_from_bits_bound(all.take(count as int));
        }
        Ok(out)
    }

    /// Read a varint written by [`BitWriter::write_varint`].
    pub fn read_varint(&mut self) -> (res: Result<u64, BitError>)
        requires
            old(self).wf(),
        ensures
            final(self).wf(),
            final(self).pos() + final(self)@.len() == old(self).pos() + old(self)@.len(),
            final(self)@ == parse_varint(old(self)@, 0).1,
            match res {
                Ok(v) => parse_varint(old(self)@, 0).0 == Ok::<nat, BitError>(v as nat),
                Err(e) => parse_varint(old(self)@, 0).0 == Err::<nat, BitError>(e),
            },
    {
        let mut out: u64 = 0;
        let mut shift: u32 = 0;
        let ghost mut k: nat = 0;
        proof {
            lemma2_to64();
        }
        while shift < 64
            invariant
                self.wf(),
                self.pos() + self@.len() == old(self).pos() + old(self)@.len(),
                shift == 7 * k,
                k <= 10,
                out < pow2((7 * k) as nat),
                parse_varint(old(self)@, 0) == (match parse_varint(self@, k) {
                    (Ok(v), r) => (Ok::<nat, BitError>((out + v * pow2((7 * k) as nat)) as nat), r),
                    (Err(e), r) => (Err::<nat, BitError>(e), r),
                }),
            decreases 70 - shift,
        {
            let ghost before = self@;
            match self.read_bits(8) {
                Err(e) => {
                    return Err(e);
                },
                Ok(raw) => {
                    proof {
                        lemma2_to64();
                    }
                    let byte: u64 = raw;
                    let low: u64 = byte & 0x7f;
                    assert(low == byte % 128 && (byte < 256 ==> ((byte & 0x80 == 0) == (byte
                        < 128)))) by (bit_vector)
                        requires
                            low == byte & 0x7f,
                    ;
                    if shift >= 63 && low > 1 {
                        return Err(BitError::VarintTooLong);
                    }
                    let ghost p = pow2((7 * k) as nat);
                    let ghost rest = parse_varint(self@, (k + 1) as nat);
                    let ghost prev = out;
                    proof {
                        lemma_group_fits(out, low, shift);
                        lemma_pow2_adds((7 * k) as nat, 7);
                        assert(low * p < 128 * p) by (nonlinear_arith)
                            requires
                                low < 128,
                                p > 0,
                        ;
                    }
                    out = out | (low << shift);
                    if byte & 0x80 == 0 {
                        return Ok(out);
                    }
                    proof {
                        match rest {
                            (Ok(v), r) => {
                                assert(parse_varint(before, k) == (Ok::<nat, BitError>(
                                    (low + 128 * v) as nat,
                                ), r));
                                assert(prev + (low + 128 * v) * p == (prev + low * p) + v * (p
                                    * 128)) by (nonlinear_arith);
                            },
                            _ => {},
                        }
                        if k == 9 {
                            lemma_pow2_strictly_increases(63, 70);
                        }
                        assert(out < p * 128) by (nonlinear_arith)
                            requires
                                out == prev + low * p,
                                prev < p,
                                low < 128,
                        ;
                        k = k + 1;
                    }
                    shift = shift + 7;
                },
            }
        }
        Err(BitError::VarintTooLong)
    }

    /// Read a zig-zag signed varint.
    pub fn read_varint_signed(&mut self) -> (res: Result<i64, BitError>)
        requires
            old(self).wf(),
        ensures
            final(self).wf(),
            final(self).pos() + final(self)@.len() == old(self).pos() + old(self)@.len(),
            final(self)@ == parse_varint(old(self)@, 0).1,
            match parse_varint(old(self)@, 0).0 {
                Ok(n) => res is Ok && res->Ok_0 == unzigzag(n),
                Err(e) => res == Err::<i64, BitError>(e),
            },
    {
        match self.read_varint() {
            Err(e) => Err(e),
            Ok(raw) => {
                let half: i64 = (raw >> 1) as i64;
                let sign: i64 = (raw & 1) as i64;
                assert(half == raw / 2 && sign == raw % 2) by (bit_vector)
                    requires
                        half == (raw >> 1) as i64,
                        sign == (raw & 1) as i64,
                ;
                let v: i64 = half ^ -sign;
                assert(sign == 0 ==> half ^ (0 - sign) as i64 == half) by (bit_vector);
                assert(sign == 1 ==> half ^ (0 - sign) as i64 == -1 - half) by (bit_vector);
                Ok(v)
            },
        }
    }
}

proof fn lemma_from_bits_bound(s: Seq<bool>)
    ensures
        from_bits(s) < pow2(s.len()),
    decreases s.len(),
{
    if s.len() == 0 {
        lemma2_to64();
    } else {
        lemma_from_bits_bound(s.drop_last());
        lemma_pow2_unfold(s.len());
    }
}

/// A group of seven bits placed above the bits read before it.
proof fn lemma_group_fits(out: u64, low: u64, shift: u32)
    requires
        shift <= 63,
        low < 128,
        shift > 57 ==> low <= 1,
        out < pow2(shift as nat),
    ensures
        out | (low << shift) == out + low * pow2(shift as nat),
        pow2(shift as nat) > 0,
{
    lemma2_to64();
    lemma2_to64_rest();
    lemma_pow2_pos(shift as nat);
    if shift < 63 {
        lemma_pow2_strictly_increases(shift as nat, 63);
    }
    if shift < 57 {
        lemma_pow2_strictly_increases(shift as nat, 57);
    }
    let p = pow2(shift as nat);
    assert(low * p <= u64::MAX) by (nonlinear_arith)
        requires
            low < 128,
            0 < p <= 0x8000_0000_0000_0000,
            low <= 1 || p <= 0x200_0000_0000_0000,
    ;
    lemma_u64_shl_is_mul(low, shift as u64);
    lemma_u64_shl_is_mul(1, shift as u64);
    assert(out | (low << shift) == out + (low << shift)) by (bit_vector)
        requires
            shift <= 63,
            out < 1u64 << shift,
            low < 128,
            shift > 57 ==> low <= 1,
    ;
}

proof fn lemma_finished(w: &BitWriter)
    requires
        w.wf(),
    ensures
        w.bytes@.len() == (w@.len() + 7) / 8,
        bits_of(w.bytes@) == w@ + zeros((8 * w.bytes@.len() - w@.len()) as nat),
{
}

proof fn lemma_to_bits_len(v: nat, n: nat)
    ensures
        to_bits(v, n).len() == n,
    decreases n,
{
    if n > 0 {
        lemma_to_bits_len(v / 2, (n - 1) as nat);
    }
}

proof fn lemma_to_bits_index(v: nat, n: nat, i: int)
    requires
        0 <= i < n,
    ensures
        to_bits(v, n).len() == n,
        to_bits(v, n)[i] == ((v / pow2((n - 1 - i) as nat)) % 2 == 1),
    decreases n,
{
    lemma_to_bits_len(v, n);
    lemma_to_bits_len(v / 2, (n - 1) as nat);
    if i == n - 1 {
        lemma2_to64();
        assert(v / 1 == v);
    } else {
        lemma_to_bits_index(v / 2, (n - 1) as nat, i);
        let p = pow2((n - 2 - i) as nat);
        lemma_pow2_pos((n - 2 - i) as nat);
        lemma_pow2_unfold((n - 1 - i) as nat);
        lemma_div_denominator(v as int, 2, p as int);
    }
}

proof fn lemma_varint_bits_step(v: nat)
    ensures
        v < 128 ==> varint_bits(v) == to_bits(v, 8),
        v >= 128 ==> varint_bits(v) == to_bits((128 + v % 128) as nat, 8) + varint_bits(v / 128),
{
    let bytes = varint_bytes(v);
    if v < 128 {
        assert(octets(bytes.drop_first()) == Seq::<bool>::empty());
    } else {
        assert(bytes.drop_first() =~= varint_bytes(v / 128));
    }
}

/// The bits of a byte are the byte written in eight bits.
pub proof fn lemma_byte_bits(bytes: Seq<u8>, i: int)
    requires
        0 <= i < bytes.len(),
    ensures
        bits_of(bytes).subrange(8 * i, 8 * i + 8) == to_bits(bytes[i] as nat, 8),
        from_bits(bits_of(bytes).subrange(8 * i, 8 * i + 8)) == bytes[i],
{
    let b = bytes[i];
    let got = bits_of(bytes).subrange(8 * i, 8 * i + 8);
    lemma_to_bits_len(b as nat, 8);
    assert forall|k: int| 0 <= k < 8 implies got[k] == to_bits(b as nat, 8)[k] by {
        lemma_to_bits_index(b as nat, 8, k);
        let s: u8 = (7 - k) as u8;
        lemma_u8_shr_is_div(b, s);
        let shifted: u8 = b >> s;
        assert(shifted & 1 == shifted % 2) by (bit_vector);
    }
    law_bits_round_trip(b as nat, 8, Seq::empty());
    lemma2_to64();
}

/// One more byte is eight more bits.
pub proof fn lemma_bits_of_push(bytes: Seq<u8>, b: u8)
    ensures
        bits_of(bytes.push(b)) == bits_of(bytes) + to_bits(b as nat, 8),
{
    let longer = bytes.push(b);
    let n = bytes.len() as int;
    lemma_byte_bits(longer, n);
    lemma_to_bits_len(b as nat, 8);
    assert(bits_of(longer) =~= bits_of(bytes) + to_bits(b as nat, 8));
}

// ---------------------------------------------------------------------------
// Laws: what is written is what is read back.
// ---------------------------------------------------------------------------

/// A number written in `n` bits reads back as its `n` low bits; whatever
/// follows stays unread.
pub proof fn law_bits_round_trip(v: nat, n: nat, rest: Seq<bool>)
    ensures
        to_bits(v, n).len() == n,
        (to_bits(v, n) + rest).take(n as int) == to_bits(v, n),
        (to_bits(v, n) + rest).skip(n as int) == rest,
        from_bits(to_bits(v, n)) == v % pow2(n),
        v < pow2(n) ==> from_bits(to_bits(v, n)) == v,
    decreases n,
{
    lemma_to_bits_len(v, n);
    let all = to_bits(v, n);
    lemma_pow2_pos(n);
    if n == 0 {
        lemma2_to64();
    } else {
        law_bits_round_trip(v / 2, (n - 1) as nat, rest);
        assert(all.drop_last() =~= to_bits(v / 2, (n - 1) as nat));
        lemma_pow2_unfold(n);
        let p = pow2((n - 1) as nat);
        lemma_pow2_pos((n - 1) as nat);
        lemma_mod_breakdown(v as int, 2, p as int);
    }
    if v < pow2(n) {
        lemma_small_mod(v, pow2(n));
    }
}

proof fn lemma_varint_parses(v: nat, rest: Seq<bool>, k: nat)
    requires
        k <= 9,
        v < pow2((64 - 7 * k) as nat),
    ensures
        parse_varint(varint_bits(v) + rest, k) == (Ok::<nat, BitError>(v), rest),
    decreases v,
{
    lemma2_to64();
    lemma_varint_bits_step(v);
    if v < 128 {
        law_bits_round_trip(v, 8, rest);
    } else {
        let head = (128 + v % 128) as nat;
        let tail = varint_bits(v / 128) + rest;
        law_bits_round_trip(head, 8, tail);
        assert(varint_bits(v) + rest =~= to_bits(head, 8) + tail);
        let p = pow2((64 - 7 * (k + 1)) as nat);
        lemma_pow2_adds((64 - 7 * (k + 1)) as nat, 7);
        assert(v / 128 < p) by (nonlinear_arith)
            requires
                v < p * 128,
        ;
        lemma_varint_parses(v / 128, rest, k + 1);
    }
}

/// Every `u64` written as a varint reads back as itself, wherever it stands
/// in the stream, and what follows it stays unread.
pub proof fn law_varint_round_trip(v: u64, rest: Seq<bool>)
    ensures
        parse_varint(varint_bits(v as nat) + rest, 0) == (Ok::<nat, BitError>(v as nat), rest),
{
    lemma2_to64();
    lemma2_to64_rest();
    lemma_varint_parses(v as nat, rest, 0);
}

/// Every `i64` survives the zig-zag code, and its code fits a `u64`.
pub proof fn law_zigzag_round_trip(v: i64)
    ensures
        unzigzag(zigzag(v as int)) == v,
        zigzag(v as int) <= u64::MAX,
{
}

/// Every `i64` written as a signed varint reads back as itself.
pub proof fn law_signed_varint_round_trip(v: i64, rest: Seq<bool>)
    ensures
        parse_varint(varint_bits(zigzag(v as int)) + rest, 0) == (Ok::<nat, BitError>(
            zigzag(v as int),
        ), rest),
        unzigzag(zigzag(v as int)) == v,
{
    law_zigzag_round_trip(v);
    law_varint_round_trip(zigzag(v as int) as u64, rest);
}

/// Small numbers are cheap: a number below `2^(7k)` costs at most `k` bytes,
/// and every varint is a whole number of bytes.
pub proof fn law_small_numbers_are_cheap(v: nat, k: nat)
    requires
        k > 0,
        v < pow2(7 * k),
    ensures
        0 < varint_bits(v).len() <= 8 * k,
        varint_bits(v).len() % 8 == 0,
    decreases k,
{
    lemma2_to64();
    lemma_varint_bits_step(v);
    lemma_to_bits_len(v, 8);
    if v >= 128 {
        lemma_to_bits_len((128 + v % 128) as nat, 8);
        lemma_pow2_adds((7 * (k - 1)) as nat, 7);
        let p = pow2((7 * (k - 1)) as nat);
        assert(v / 128 < p) by (nonlinear_arith)
            requires
                v < p * 128,
        ;
        law_small_numbers_are_cheap(v / 128, (k - 1) as nat);
    }
}

/// Numbers and bytes are spelled most significant bit first: bit `i` of `n` is
/// worth `2^(n-1-i)`, and eight bits of a byte string spell its byte.
pub proof fn law_the_most_significant_bit_comes_first(v: nat, n: nat, bytes: Seq<u8>)
    ensures
        to_bits(v, n).len() == n,
        forall|i: int|
            0 <= i < n ==> (#[trigger] to_bits(v, n)[i] <==> (v / pow2((n - 1 - i) as nat)) % 2
                == 1),
        bits_of(bytes).len() == 8 * bytes.len(),
        forall|i: int|
            0 <= i < bytes.len() ==> from_bits(bits_of(bytes).subrange(8 * i, 8 * i + 8))
                == #[trigger] bytes[i],
{
    lemma_to_bits_len(v, n);
    assert forall|i: int| 0 <= i < n implies (#[trigger] to_bits(v, n)[i] <==> (v / pow2(
        (n - 1 - i) as nat,
    )) % 2 == 1) by {
        lemma_to_bits_index(v, n, i);
    }
    assert forall|i: int| 0 <= i < bytes.len() implies from_bits(
        bits_of(bytes).subrange(8 * i, 8 * i + 8),
    ) == #[trigger] bytes[i] by {
        lemma_byte_bits(bytes, i);
    }
}

proof fn lemma_bits_respelled(s: Seq<bool>)
    ensures
        to_bits(from_bits(s), s.len()) == s,
    decreases s.len(),
{
    if s.len() > 0 {
        lemma_bits_respelled(s.drop_last());
        let v = from_bits(s);
        assert(v / 2 == from_bits(s.drop_last()));
        assert(to_bits(v, s.len()) =~= s);
    } else {
        assert(to_bits(from_bits(s), s.len()) =~= s);
    }
}

/// The number that bits spell has just those bits: no two strings of one
/// length spell the same number.
pub proof fn law_bits_spell_one_number(s: Seq<bool>, t: Seq<bool>)
    requires
        s.len() == t.len(),
    ensures
        from_bits(s) == from_bits(t) ==> s == t,
        from_bits(s) < pow2(s.len()),
{
    lemma_bits_respelled(s);
    lemma_bits_respelled(t);
    lemma_from_bits_bound(s);
}

/// A varint carries seven bits to a byte, the low ones first, and the top bit
/// of a byte is set exactly where more follow.
pub proof fn law_a_varint_is_seven_bits_to_a_byte(v: nat)
    ensures
        varint_bits(v).len() >= 8,
        from_bits(varint_bits(v).take(8)) % 128 == v % 128,
        varint_bits(v)[0] <==> v >= 128,
        v < 128 ==> varint_bits(v).len() == 8,
        v >= 128 ==> varint_bits(v).skip(8) == varint_bits(v / 128),
{
    lemma2_to64();
    lemma_varint_bits_step(v);
    let head = if v < 128 {
        v
    } else {
        (128 + v % 128) as nat
    };
    let tail = if v < 128 {
        Seq::empty()
    } else {
        varint_bits(v / 128)
    };
    law_bits_round_trip(head, 8, tail);
    lemma_to_bits_index(head, 8, 0);
    assert(varint_bits(v) =~= to_bits(head, 8) + tail);
}

proof fn lemma_varint_bound(s: Seq<bool>, k: nat)
    requires
        k <= 10,
    ensures
        parse_varint(s, k).0 matches Ok(v) ==> k <= 9 && v < pow2((64 - 7 * k) as nat),
    decreases 10 - k,
{
    lemma2_to64();
    if k < 10 && s.len() >= 8 {
        let b = from_bits(s.take(8));
        lemma_from_bits_bound(s.take(8));
        lemma_varint_bound(s.skip(8), k + 1);
        if k < 9 {
            lemma_pow2_adds((64 - 7 * (k + 1)) as nat, 7);
            let p = pow2((64 - 7 * (k + 1)) as nat);
            lemma_pow2_pos((64 - 7 * (k + 1)) as nat);
            if parse_varint(s.skip(8), k + 1).0 is Ok {
                let w = parse_varint(s.skip(8), k + 1).0->Ok_0;
                assert((b - 128) + 128 * w < p * 128) by (nonlinear_arith)
                    requires
                        w < p,
                        b < 256,
                ;
            }
            assert(128 <= p * 128) by (nonlinear_arith)
                requires
                    p > 0,
            ;
        }
    }
}

proof fn lemma_cut_varint(v: nat, m: int, k: nat)
    requires
        k <= 9,
        v < pow2((64 - 7 * k) as nat),
        0 <= m < varint_bits(v).len(),
    ensures
        parse_varint(varint_bits(v).take(m), k).0 == Err::<nat, BitError>(BitError::Truncated),
    decreases v,
{
    lemma2_to64();
    lemma_varint_bits_step(v);
    let s = varint_bits(v).take(m);
    if v < 128 {
        lemma_to_bits_len(v, 8);
    } else if m >= 8 {
        let head = (128 + v % 128) as nat;
        let tail = varint_bits(v / 128);
        law_bits_round_trip(head, 8, tail);
        assert(s.take(8) =~= to_bits(head, 8));
        assert(s.skip(8) =~= tail.take(m - 8));
        let p = pow2((64 - 7 * (k + 1)) as nat);
        if k < 9 {
            lemma_pow2_adds((64 - 7 * (k + 1)) as nat, 7);
            assert(v / 128 < p) by (nonlinear_arith)
                requires
                    v < p * 128,
            ;
            lemma_cut_varint(v / 128, m - 8, k + 1);
        }
    }
}

proof fn lemma_endless_varint(s: Seq<bool>, k: nat)
    requires
        k <= 10,
        s.len() >= 8 * (10 - k),
        forall|i: int| 0 <= i < 10 - k ==> #[trigger] s[8 * i],
    ensures
        parse_varint(s, k).0 == Err::<nat, BitError>(BitError::VarintTooLong),
    decreases 10 - k,
{
    lemma2_to64();
    if k < 10 {
        let head = s.take(8);
        let b = from_bits(head);
        lemma_bits_respelled(head);
        lemma_from_bits_bound(head);
        lemma_to_bits_index(b, 8, 0);
        assert(s[8 * 0int]);
        assert(head[0] && pow2((8 - 1 - 0) as nat) == 128);
        assert(head.len() == 8 && to_bits(b, 8) == head);
        assert((b / 128) % 2 == 1);
        assert(b >= 128);
        let rest = s.skip(8);
        assert forall|i: int| 0 <= i < 10 - (k + 1) implies #[trigger] rest[8 * i] by {
            assert(s[8 * (i + 1)]);
        }
        lemma_endless_varint(rest, k + 1);
    }
}

/// What a varint reads as fits its type; one that was cut short is told from
/// one that does not end within ten bytes.
pub proof fn law_broken_varints_are_told_apart(s: Seq<bool>, v: u64, m: int)
    requires
        0 <= m < varint_bits(v as nat).len(),
    ensures
        parse_varint(s, 0).0 matches Ok(w) ==> w <= u64::MAX,
        parse_varint(varint_bits(v as nat).take(m), 0).0 == Err::<nat, BitError>(
            BitError::Truncated,
        ),
        s.len() >= 80 && (forall|i: int| 0 <= i < 10 ==> #[trigger] s[8 * i]) ==> parse_varint(
            s,
            0,
        ).0 == Err::<nat, BitError>(BitError::VarintTooLong),
{
    lemma2_to64();
    lemma2_to64_rest();
    lemma_varint_bound(s, 0);
    lemma_cut_varint(v as nat, m, 0);
    if s.len() >= 80 && (forall|i: int| 0 <= i < 10 ==> #[trigger] s[8 * i]) {
        lemma_endless_varint(s, 0);
    }
}

/// The zig-zag code alternates between the signs as magnitudes grow: every
/// natural is the code of one number, the next larger magnitude costs two
/// more, and of the two signs the negative one comes first.
pub proof fn law_zigzag_alternates(n: nat, v: int)
    ensures
        zigzag(unzigzag(n)) == n,
        zigzag(0) == 0,
        v > 0 ==> zigzag(-v) + 1 == zigzag(v) && zigzag(v) == zigzag(v - 1) + 2,
{
}

// ---------------------------------------------------------------------------
// What the calls do.
// ---------------------------------------------------------------------------

/// What a writer does: it adds behind what was written, and changes none of it.
/// A number in `count` bits adds those bits, the most significant first, and a
/// varint adds eight bits for each seven of the number.
pub proof fn law_what_is_written_goes_behind(
    bit: bool,
    value: u64,
    count: u32,
    signed: i64,
    i: int,
)
    requires
        count <= 64,
    ensures
        forall|w: &mut BitWriter|
            w.wf() && #[trigger] call_ensures(BitWriter::write_bit, (w, bit), ()) ==> {
                let after = (*final(w))@;
                after.len() == w@.len() + 1 && after.last() == bit && after.drop_last() == w@
            },
        forall|w: &mut BitWriter|
            w.wf() && #[trigger] call_ensures(BitWriter::write_bits, (w, value, count), ()) ==> {
                let after = (*final(w))@;
                &&& after.len() == w@.len() + count
                &&& after.take(w@.len() as int) == w@
                &&& 0 <= i < count ==> (after[w@.len() + i] <==> (value as nat / pow2(
                    (count - 1 - i) as nat,
                )) % 2 == 1)
            },
        forall|w: &mut BitWriter|
            w.wf() && #[trigger] call_ensures(BitWriter::write_varint, (w, value), ()) ==> {
                let after = (*final(w))@;
                &&& after.take(w@.len() as int) == w@
                &&& after.skip(w@.len() as int) == varint_bits(value as nat)
            },
        forall|w: &mut BitWriter|
            w.wf() && #[trigger] call_ensures(BitWriter::write_varint_signed, (w, signed), ()) ==> {
                let after = (*final(w))@;
                &&& after.take(w@.len() as int) == w@
                &&& signed >= 0 ==> after.skip(w@.len() as int) == varint_bits(
                    (2 * signed) as nat,
                )
                &&& signed < 0 ==> after.skip(w@.len() as int) == varint_bits(
                    (-2 * signed - 1) as nat,
                )
            },
        forall|w: &mut BitWriter| #[trigger]
            call_ensures(BitWriter::clear, (w,), ()) ==> (*final(w))@.len() == 0,
{
    law_the_most_significant_bit_comes_first(value as nat, count as nat, Seq::empty());
    if 0 <= i < count {
        assert(to_bits(value as nat, count as nat)[i] <==> (value as nat / pow2(
            (count - 1 - i) as nat,
        )) % 2 == 1);
    }
    assert forall|w: &mut BitWriter|
        w.wf() && #[trigger] call_ensures(BitWriter::write_bit, (w, bit), ()) implies {
        let after = (*final(w))@;
        after.drop_last() == w@
    } by {
        assert(w@.push(bit).drop_last() =~= w@);
    }
    assert forall|s: Seq<bool>, t: Seq<bool>|
        #![trigger s + t]
        (s + t).take(s.len() as int) == s && (s + t).skip(s.len() as int) == t by {
        assert((s + t).take(s.len() as int) =~= s);
        assert((s + t).skip(s.len() as int) =~= t);
    }
}

/// What a reader does: it takes what is in front and leaves the rest. Of bits it
/// gives the number they spell, and where too few are left it says so and is at
/// the end.
pub proof fn law_what_is_read_comes_from_the_front(
    bit: Result<bool, BitError>,
    count: u32,
    number: Result<u64, BitError>,
)
    requires
        count <= 64,
    ensures
        forall|r: &mut BitReader<'_>|
            r.wf() && #[trigger] call_ensures(BitReader::read_bit, (r,), bit) ==> {
                let after = (*final(r))@;
                &&& r@.len() == 0 ==> bit == Err::<bool, BitError>(BitError::Truncated)
                    && after.len() == 0
                &&& r@.len() > 0 ==> bit == Ok::<bool, BitError>(r@[0]) && after == r@.skip(1)
            },
        forall|r: &mut BitReader<'_>|
            r.wf() && #[trigger] call_ensures(BitReader::read_bits, (r, count), number) ==> {
                let after = (*final(r))@;
                &&& r@.len() < count ==> number == Err::<u64, BitError>(BitError::Truncated)
                    && after.len() == 0
                &&& r@.len() >= count ==> number is Ok && to_bits(
                    number->Ok_0 as nat,
                    count as nat,
                ) == r@.take(count as int) && after == r@.skip(count as int)
            },
{
    assert forall|r: &mut BitReader<'_>|
        r.wf() && #[trigger] call_ensures(BitReader::read_bits, (r, count), number) && r@.len()
            >= count implies number is Ok && to_bits(number->Ok_0 as nat, count as nat) == r@.take(
        count as int,
    ) by {
        lemma_bits_respelled(r@.take(count as int));
    }
}

/// A varint that is read gives the number that was written, and what follows it
/// stays unread; a number that is read was written in seven bits to a byte.
pub proof fn law_what_was_written_is_read(
    value: u64,
    read: Result<u64, BitError>,
    signed: i64,
    read_signed: Result<i64, BitError>,
    rest: Seq<bool>,
)
    ensures
        forall|w: &mut BitWriter, r: &mut BitReader<'_>|
            w.wf() && r.wf() && #[trigger] call_ensures(BitWriter::write_varint, (w, value), ())
                && #[trigger] call_ensures(BitReader::read_varint, (r,), read) && r@ == (
            *final(w))@.skip(w@.len() as int) + rest ==> read == Ok::<u64, BitError>(value) && (
            *final(r))@ == rest,
        forall|w: &mut BitWriter, r: &mut BitReader<'_>|
            w.wf() && r.wf() && #[trigger] call_ensures(
                BitWriter::write_varint_signed,
                (w, signed),
                (),
            ) && #[trigger] call_ensures(BitReader::read_varint_signed, (r,), read_signed) && r@
                == (*final(w))@.skip(w@.len() as int) + rest ==> read_signed == Ok::<i64, BitError>(
                signed,
            ) && (*final(r))@ == rest,
{
    law_varint_round_trip(value, rest);
    law_signed_varint_round_trip(signed, rest);
    assert forall|s: Seq<bool>, t: Seq<bool>|
        #![trigger s + t]
        (s + t).skip(s.len() as int) == t by {
        assert((s + t).skip(s.len() as int) =~= t);
    }
}

/// A finished buffer is what was written, and then clear bits up to the byte.
pub proof fn law_a_finished_buffer_is_padded(w: BitWriter, bytes: Vec<u8>, i: int)
    requires
        w.wf(),
        call_ensures(BitWriter::finish, (w,), bytes),
    ensures
        8 * bytes@.len() >= w@.len() && 8 * bytes@.len() < w@.len() + 8,
        bits_of(bytes@).take(w@.len() as int) == w@,
        w@.len() <= i < 8 * bytes@.len() ==> !bits_of(bytes@)[i],
{
    assert(bits_of(bytes@).take(w@.len() as int) =~= w@);
}

/// How long things are: bits are counted one by one, and bytes are as many as
/// they take up. A reader has read and has left what it was given.
pub proof fn law_lengths_count_bits(
    w: &BitWriter,
    bits: usize,
    bytes: usize,
    r: &BitReader<'_>,
    read: usize,
    left: usize,
)
    requires
        w.wf(),
        w@.len() + 8 <= usize::MAX,
        r.wf(),
        call_ensures(BitWriter::bit_len, (w,), bits),
        call_ensures(BitWriter::byte_len, (w,), bytes),
        call_ensures(BitReader::bit_pos, (r,), read),
        call_ensures(BitReader::bits_remaining, (r,), left),
    ensures
        bits == w@.len(),
        8 * bytes >= bits && 8 * bytes < bits + 8,
        left == r@.len(),
        read == r.pos(),
{
}

/// A reader of bytes starts at their first bit.
pub proof fn law_a_reader_starts_at_the_front(bytes: &[u8], r: BitReader<'_>)
    requires
        bytes@.len() * 8 <= usize::MAX,
        call_ensures(BitReader::new, (bytes,), r),
    ensures
        r@ == bits_of(bytes@),
        r.pos() == 0,
{
}

/// The sentences of the errors.
pub proof fn law_errors_are_told_in_words(e: &BitError, s: String)
    requires
        call_ensures(BitError::message, (e,), s),
    ensures
        *e is Truncated ==> s@ == "packet ended mid-value"@,
        *e is VarintTooLong ==> s@ == "varint longer than its type permits"@,
        *e is OutOfRange ==> s@ == "quantised value outside its declared range"@,
{
}

} // verus!
