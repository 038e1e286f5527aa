use vstd::prelude::*;
use vstd::slice::slice_subrange;
use vstd::string::StringExecFns;
use vstd::utf8::encode_utf8;

use crate::name::{
    label_emission, labels_emission, lemma_join_push, lemma_pointer_octet, lemma_split_dot,
    lemma_split_skip, lemma_then_assoc, lower, lower_label, name_bytes, name_emission, name_text,
    resumed, scan_name, split_from, split_labels, text_from_bytes, DOT, MAX_JUMPS, MAX_LABEL_LEN,
};

verus! {

/// Capacity of a message buffer: the classic ceiling of a UDP DNS message.
pub const LIMIT_OF_BUFFER: usize = 512;

/// The ways in which encoding, decoding or resolving a message can fail.
#[derive(Debug, Clone, Copy, PartialEq, Eq, Structural)]
pub enum DnsError {
    /// A read or write would cross the end of the buffer.
    BufferOverrun,
    /// A name followed more compression pointers than allowed.
    CompressionLoop,
    /// A label of a name to encode is longer than 63 bytes.
    LabelTooLong,
    /// Sending or receiving a datagram failed.
    Transport,
    /// Resolving name-server names nested deeper than allowed.
    TooDeep,
}

pub type Result<T> = core::result::Result<T, DnsError>;

// ---------------------------------------------------------------------------
// Byte-level model
// ---------------------------------------------------------------------------

/// `old` with `bytes` laid over it from offset `p` on.
pub open spec fn overwrite(old: Seq<u8>, p: int, bytes: Seq<u8>) -> Seq<u8> {
    Seq::new(old.len(), |i: int| if p <= i < p + bytes.len() { bytes[i - p] } else { old[i] })
}

/// Big-endian 16-bit value of the two bytes at `p`.
pub open spec fn u16_at(bytes: Seq<u8>, p: int) -> u16 {
    (bytes[p] as int * 0x100 + bytes[p + 1] as int) as u16
}

/// Big-endian 32-bit value of the four bytes at `p`.
pub open spec fn u32_at(bytes: Seq<u8>, p: int) -> u32 {
    (bytes[p] as int * 0x1000000 + bytes[p + 1] as int * 0x10000 + bytes[p + 2] as int * 0x100
        + bytes[p + 3] as int) as u32
}

/// Big-endian bytes of a 16-bit value.
pub open spec fn u16_bytes(v: u16) -> Seq<u8> {
    seq![(v / 0x100) as u8, (v % 0x100) as u8]
}

/// Big-endian bytes of a 32-bit value.
pub open spec fn u32_bytes(v: u32) -> Seq<u8> {
    seq![
        (v / 0x1000000) as u8,
        (v / 0x10000 % 0x100) as u8,
        (v / 0x100 % 0x100) as u8,
        (v % 0x100) as u8,
    ]
}

/// What a sequence of writes puts out: the bytes written before it stops, and
/// the error that stopped it, if one did (besides running out of room).
pub struct Emission {
    pub bytes: Seq<u8>,
    pub stop: Option<DnsError>,
}

/// An emission of `bytes` that does not stop early.
pub open spec fn plain(bytes: Seq<u8>) -> Emission {
    Emission { bytes, stop: None }
}

/// `a` followed by `b`; `b` never starts when `a` stopped.
pub open spec fn then(a: Emission, b: Emission) -> Emission {
    if a.stop is Some {
        a
    } else {
        Emission { bytes: a.bytes + b.bytes, stop: b.stop }
    }
}

/// Writing `e` at the cursor of `pre` gave `post` and `r`: an overrun when its
/// bytes do not fit; otherwise its own stop, or success with the bytes in place
/// and the cursor past them.
pub open spec fn emits(
    pre: BytePacketBuffer,
    post: BytePacketBuffer,
    r: Result<()>,
    e: Emission,
) -> bool {
    if e.bytes.len() > 0 && pre.position + e.bytes.len() > LIMIT_OF_BUFFER {
        r == Err::<(), DnsError>(DnsError::BufferOverrun)
    } else if e.stop is Some {
        r == Err::<(), DnsError>(e.stop->0)
    } else {
        &&& r == Ok::<(), DnsError>(())
        &&& post.bytes() == overwrite(pre.bytes(), pre.position as int, e.bytes)
        &&& post.position == pre.position + e.bytes.len()
    }
}

pub proof fn lemma_overwrite_concat(old: Seq<u8>, p: int, a: Seq<u8>, b: Seq<u8>)
    ensures
        overwrite(overwrite(old, p, a), p + a.len(), b) == overwrite(old, p, a + b),
{
    assert(overwrite(overwrite(old, p, a), p + a.len(), b) =~= overwrite(old, p, a + b));
}

/// Two writes in a row emit the two emissions one after the other.
pub proof fn lemma_emits_then(
    b0: BytePacketBuffer,
    b1: BytePacketBuffer,
    r1: Result<()>,
    e1: Emission,
    b2: BytePacketBuffer,
    r2: Result<()>,
    e2: Emission,
)
    requires
        emits(b0, b1, r1, e1),
        r1 is Ok,
        emits(b1, b2, r2, e2),
    ensures
        emits(b0, b2, r2, then(e1, e2)),
{
    if r2 is Ok {
        lemma_overwrite_concat(b0.bytes(), b0.position as int, e1.bytes, e2.bytes);
    }
}

/// One more plain write after a run of plain writes: the run grows by its
/// bytes, and a failure of this write is a failure of any longer run too.
pub proof fn lemma_emits_step(
    b0: BytePacketBuffer,
    b1: BytePacketBuffer,
    done: Seq<u8>,
    b2: BytePacketBuffer,
    r: Result<()>,
    next: Seq<u8>,
    total: Seq<u8>,
)
    requires
        emits(b0, b1, Ok(()), plain(done)),
        emits(b1, b2, r, plain(next)),
        done.len() + next.len() <= total.len(),
    ensures
        emits(b0, b2, r, plain(done + next)),
        r is Err ==> emits(b0, b2, r, plain(total)),
{
    lemma_emits_then(b0, b1, Ok(()), plain(done), b2, r, plain(next));
}

pub proof fn lemma_emits_nothing(b: BytePacketBuffer)
    ensures
        emits(b, b, Ok(()), plain(seq![])),
{
    assert(overwrite(b.bytes(), b.position as int, seq![]) =~= b.bytes());
}

pub proof fn lemma_u16_parts(hi: u8, lo: u8)
    ensures
        ((((hi as int * 0x100 + lo as int) as u16) >> 8u16) as u8) == hi,
        ((((hi as int * 0x100 + lo as int) as u16) & 0xFFu16) as u8) == lo,
{
    assert(((((hi as u16) * 0x100u16 + lo as u16) as u16 >> 8u16) as u8) == hi) by (bit_vector);
    assert(((((hi as u16) * 0x100u16 + lo as u16) as u16 & 0xFFu16) as u8) == lo) by (bit_vector);
}

/// A write that failed fails whatever would have followed it.
pub proof fn lemma_emits_stopped(
    b0: BytePacketBuffer,
    b1: BytePacketBuffer,
    r1: Result<()>,
    e1: Emission,
    e2: Emission,
)
    requires
        emits(b0, b1, r1, e1),
        r1 is Err,
    ensures
        emits(b0, b1, r1, then(e1, e2)),
{
}

pub proof fn lemma_be16(hi: u8, lo: u8)
    ensures
        ((hi as u16) << 8u16) | (lo as u16) == (hi as int * 0x100 + lo as int) as u16,
{
    assert(((hi as u16) << 8u16) | (lo as u16) == hi as u16 * 0x100u16 + lo as u16) by (bit_vector);
}

pub proof fn lemma_be32(b0: u8, b1: u8, b2: u8, b3: u8)
    ensures
        ((b0 as u32) << 24u32) | ((b1 as u32) << 16u32) | ((b2 as u32) << 8u32) | (b3 as u32)
            == (b0 as int * 0x1000000 + b1 as int * 0x10000 + b2 as int * 0x100 + b3 as int) as u32,
{
    assert(((b0 as u32) << 24u32) | ((b1 as u32) << 16u32) | ((b2 as u32) << 8u32) | (b3 as u32)
        == b0 as u32 * 0x1000000u32 + b1 as u32 * 0x10000u32 + b2 as u32 * 0x100u32 + b3 as u32)
        by (bit_vector);
}

pub proof fn lemma_u16_round_trip(v: u16)
    ensures
        ((v / 0x100) as u8 as int * 0x100 + (v % 0x100) as u8 as int) as u16 == v,
{
    assert(((v / 0x100u16) as u8 as u16) * 0x100u16 + (v % 0x100u16) as u8 as u16 == v) by (bit_vector);
}

pub proof fn lemma_split16(v: u16)
    ensures
        ((v >> 8u16) & 0xFFu16) as u8 == (v / 0x100) as u8,
        (v & 0xFFu16) as u8 == (v % 0x100) as u8,
{
    assert(((v >> 8u16) & 0xFFu16) as u8 == (v / 0x100u16) as u8) by (bit_vector);
    assert((v & 0xFFu16) as u8 == (v % 0x100u16) as u8) by (bit_vector);
}

pub proof fn lemma_split32(v: u32)
    ensures
        ((v >> 24u32) & 0xFFu32) as u8 == (v / 0x1000000) as u8,
        ((v >> 16u32) & 0xFFu32) as u8 == (v / 0x10000 % 0x100) as u8,
        ((v >> 8u32) & 0xFFu32) as u8 == (v / 0x100 % 0x100) as u8,
        (v & 0xFFu32) as u8 == (v % 0x100) as u8,
{
    assert(((v >> 24u32) & 0xFFu32) as u8 == (v / 0x1000000u32) as u8) by (bit_vector);
    assert(((v >> 16u32) & 0xFFu32) as u8 == (v / 0x10000u32 % 0x100u32) as u8) by (bit_vector);
    assert(((v >> 8u32) & 0xFFu32) as u8 == (v / 0x100u32 % 0x100u32) as u8) by (bit_vector);
    assert((v & 0xFFu32) as u8 == (v % 0x100u32) as u8) by (bit_vector);
}

/// A fixed-capacity byte buffer with one cursor for sequential reads and writes.
pub struct BytePacketBuffer {
    pub buffer: [u8; 512],
    pub position: usize,
}

impl BytePacketBuffer {
    pub open spec fn bytes(&self) -> Seq<u8> {
        self.buffer@
    }

    pub fn new() -> (r: Self)
        ensures
            r.position == 0,
            r.bytes() == Seq::new(LIMIT_OF_BUFFER as nat, |i: int| 0u8),
    {
        let r = Self { buffer: [0u8; 512], position: 0 };
        assert(r.bytes() =~= Seq::new(LIMIT_OF_BUFFER as nat, |i: int| 0u8));
        r
    }

    /// Moves the cursor forward; the next read or write checks the bound.
    pub fn step(&mut self, steps: usize) -> (r: Result<()>)
        requires
            old(self).position + steps <= usize::MAX,
        ensures
            r is Ok,
            final(self).buffer == old(self).buffer,
            final(self).position == old(self).position + steps,
    {
        self.position += steps;
        Ok(())
    }

    /// Moves the cursor to `position`; the next read or write checks the bound.
    pub fn seek(&mut self, position: usize) -> (r: Result<()>)
        ensures
            r is Ok,
            final(self).buffer == old(self).buffer,
            final(self).position == position,
    {
        self.position = position;
        Ok(())
    }

    pub fn read(&mut self) -> (r: Result<u8>)
        ensures
            final(self).buffer == old(self).buffer,
            old(self).position < LIMIT_OF_BUFFER ==> r == Ok::<u8, DnsError>(
                old(self).bytes()[old(self).position as int],
            ) && final(self).position == old(self).position + 1,
            old(self).position >= LIMIT_OF_BUFFER ==> r == Err::<u8, DnsError>(
                DnsError::BufferOverrun,
            ) && final(self).position == old(self).position,
    {
        if self.position >= LIMIT_OF_BUFFER {
            return Err(DnsError::BufferOverrun);
        }
        let result = self.buffer[self.position];
        self.position += 1;
        Ok(result)
    }

    pub fn get(&self, position: usize) -> (r: Result<u8>)
        ensures
            position < LIMIT_OF_BUFFER ==> r == Ok::<u8, DnsError>(self.bytes()[position as int]),
            position >= LIMIT_OF_BUFFER ==> r == Err::<u8, DnsError>(DnsError::BufferOverrun),
    {
        if position >= LIMIT_OF_BUFFER {
            return Err(DnsError::BufferOverrun);
        }
        Ok(self.buffer[position])
    }

    /// The `len` bytes from `start` on. The range must end before the last
    /// byte of the buffer: a range that reaches it is refused.
    pub fn get_range(&self, start: usize, len: usize) -> (r: Result<&[u8]>)
        ensures
            start + len < LIMIT_OF_BUFFER ==> r is Ok && r->Ok_0@ == self.bytes().subrange(
                start as int,
                start + len,
            ),
            start + len >= LIMIT_OF_BUFFER ==> r == Err::<&[u8], DnsError>(DnsError::BufferOverrun),
    {
        if len >= LIMIT_OF_BUFFER || start >= LIMIT_OF_BUFFER - len {
            return Err(DnsError::BufferOverrun);
        }
        Ok(slice_subrange(self.buffer.as_slice(), start, start + len))
    }

    pub fn read_u16(&mut self) -> (r: Result<u16>)
        ensures
            final(self).buffer == old(self).buffer,
            old(self).position + 2 <= LIMIT_OF_BUFFER ==> r == Ok::<u16, DnsError>(
                u16_at(old(self).bytes(), old(self).position as int),
            ) && final(self).position == old(self).position + 2,
            old(self).position + 2 > LIMIT_OF_BUFFER ==> r == Err::<u16, DnsError>(
                DnsError::BufferOverrun,
            ),
    {
        let hi = self.read()?;
        let lo = self.read()?;
        proof {
            lemma_be16(hi, lo);
        }
        Ok(((hi as u16) << 8) | (lo as u16))
    }

    pub fn read_u32(&mut self) -> (r: Result<u32>)
        ensures
            final(self).buffer == old(self).buffer,
            old(self).position + 4 <= LIMIT_OF_BUFFER ==> r == Ok::<u32, DnsError>(
                u32_at(old(self).bytes(), old(self).position as int),
            ) && final(self).position == old(self).position + 4,
            old(self).position + 4 > LIMIT_OF_BUFFER ==> r == Err::<u32, DnsError>(
                DnsError::BufferOverrun,
            ),
    {
        let b0 = self.read()?;
        let b1 = self.read()?;
        let b2 = self.read()?;
        let b3 = self.read()?;
        proof {
            lemma_be32(b0, b1, b2, b3);
        }
        Ok(((b0 as u32) << 24) | ((b1 as u32) << 16) | ((b2 as u32) << 8) | (b3 as u32))
    }

    pub fn write(&mut self, byte: u8) -> (r: Result<()>)
        ensures
            emits(*old(self), *final(self), r, plain(seq![byte])),
    {
        if self.position >= LIMIT_OF_BUFFER {
            return Err(DnsError::BufferOverrun);
        }
        self.buffer[self.position] = byte;
        self.position += 1;
        assert(self.bytes() =~= overwrite(old(self).bytes(), old(self).position as int, seq![byte]));
        Ok(())
    }

    pub fn write_u8(&mut self, byte: u8) -> (r: Result<()>)
        ensures
            emits(*old(self), *final(self), r, plain(seq![byte])),
    {
        self.write(byte)
    }

    pub fn write_u16(&mut self, byte: u16) -> (r: Result<()>)
        ensures
            emits(*old(self), *final(self), r, plain(u16_bytes(byte))),
    {
        proof {
            lemma_split16(byte);
        }
        let ghost b0 = *self;
        let r1 = self.write(((byte >> 8) & 0xFF) as u8);
        let ghost b1 = *self;
        if r1.is_err() {
            return r1;
        }
        let r2 = self.write((byte & 0xFF) as u8);
        proof {
            lemma_emits_then(b0, b1, r1, plain(seq![(byte / 0x100) as u8]), *self, r2,
                plain(seq![(byte % 0x100) as u8]));
            assert(seq![(byte / 0x100) as u8] + seq![(byte % 0x100) as u8] =~= u16_bytes(byte));
        }
        r2
    }

    pub fn write_u32(&mut self, byte: u32) -> (r: Result<()>)
        ensures
            emits(*old(self), *final(self), r, plain(u32_bytes(byte))),
    {
        proof {
            lemma_split32(byte);
        }
        let ghost e0 = plain(seq![(byte / 0x1000000) as u8]);
        let ghost e1 = plain(seq![(byte / 0x10000 % 0x100) as u8]);
        let ghost e2 = plain(seq![(byte / 0x100 % 0x100) as u8]);
        let ghost e3 = plain(seq![(byte % 0x100) as u8]);
        let ghost s0 = *self;
        let r0 = self.write(((byte >> 24) & 0xFF) as u8);
        if r0.is_err() {
            proof {
                lemma_emits_stopped(s0, *self, r0, e0, plain(u32_bytes(byte).drop_first()));
                assert(e0.bytes + u32_bytes(byte).drop_first() =~= u32_bytes(byte));
            }
            return r0;
        }
        let ghost s1 = *self;
        let r1 = self.write(((byte >> 16) & 0xFF) as u8);
        proof {
            lemma_emits_then(s0, s1, r0, e0, *self, r1, e1);
        }
        if r1.is_err() {
            proof {
                lemma_emits_stopped(s0, *self, r1, then(e0, e1), plain(u32_bytes(byte).subrange(2, 4)));
                assert(then(e0, e1).bytes + u32_bytes(byte).subrange(2, 4) =~= u32_bytes(byte));
            }
            return r1;
        }
        let ghost s2 = *self;
        let r2 = self.write(((byte >> 8) & 0xFF) as u8);
        proof {
            lemma_emits_then(s0, s2, r1, then(e0, e1), *self, r2, e2);
        }
        if r2.is_err() {
            proof {
                lemma_emits_stopped(s0, *self, r2, then(then(e0, e1), e2), e3);
                assert(then(then(e0, e1), e2).bytes + e3.bytes =~= u32_bytes(byte));
            }
            return r2;
        }
        let ghost s3 = *self;
        let r3 = self.write((byte & 0xFF) as u8);
        proof {
            lemma_emits_then(s0, s3, r2, then(then(e0, e1), e2), *self, r3, e3);
            assert(then(then(then(e0, e1), e2), e3).bytes =~= u32_bytes(byte));
        }
        r3
    }

    fn set(&mut self, position: usize, byte: u8) -> (r: Result<()>)
        requires
            position < LIMIT_OF_BUFFER,
        ensures
            r is Ok,
            final(self).bytes() == old(self).bytes().update(position as int, byte),
            final(self).position == old(self).position,
    {
        self.buffer[position] = byte;
        Ok(())
    }

    /// Patches two bytes at `position`, leaving the cursor where it is; used
    /// to fill in a length once what it measures has been written.
    pub fn set_u16(&mut self, position: usize, byte: u16) -> (r: Result<()>)
        requires
            position + 1 < LIMIT_OF_BUFFER,
        ensures
            r == Ok::<(), DnsError>(()),
            final(self).bytes() == overwrite(old(self).bytes(), position as int, u16_bytes(byte)),
            final(self).position == old(self).position,
    {
        proof {
            lemma_split16(byte);
            assert((byte >> 8u16) as u8 == ((byte >> 8u16) & 0xFFu16) as u8) by (bit_vector);
        }
        self.set(position, (byte >> 8) as u8)?;
        self.set(position + 1, (byte & 0xFF) as u8)?;
        assert(self.bytes() =~= overwrite(old(self).bytes(), position as int, u16_bytes(byte)));
        Ok(())
    }

    /// Writes the bytes of `bytes` one after the other.
    fn write_all(&mut self, bytes: &Vec<u8>) -> (r: Result<()>)
        ensures
            emits(*old(self), *final(self), r, plain(bytes@)),
    {
        let ghost s0 = *self;
        let mut i: usize = 0;
        assert(overwrite(s0.bytes(), s0.position as int, bytes@.subrange(0, 0)) =~= s0.bytes());
        while i < bytes.len()
            invariant
                s0 == *old(self),
                i <= bytes@.len(),
                emits(s0, *self, Ok(()), plain(bytes@.subrange(0, i as int))),
            decreases bytes@.len() - i,
        {
            let ghost s1 = *self;
            let r = self.write(bytes[i]);
            if r.is_err() {
                assert(s1.position == s0.position + i);
                assert(s1.position + 1 > LIMIT_OF_BUFFER);
                return r;
            }
            proof {
                lemma_emits_then(s0, s1, Ok(()), plain(bytes@.subrange(0, i as int)), *self, r,
                    plain(seq![bytes@[i as int]]));
                assert(bytes@.subrange(0, i as int) + seq![bytes@[i as int]] =~= bytes@.subrange(
                    0,
                    i + 1,
                ));
            }
            i += 1;
        }
        assert(bytes@.subrange(0, i as int) =~= bytes@);
        Ok(())
    }

    /// Writes `query_name` in full, without compression: each dot-separated
    /// label as its length and its bytes, then a zero byte.
    pub fn write_query_name(&mut self, query_name: &str) -> (r: Result<()>)
        ensures
            emits(*old(self), *final(self), r, name_emission(encode_utf8(query_name@))),
    {
        let bytes = query_name.as_bytes();
        let ghost b = bytes@;
        let n = bytes.len();
        let mut wire: Vec<u8> = Vec::new();
        let mut start: usize = 0;
        let mut too_long = false;
        proof {
            assert(b.subrange(0, n as int) =~= b);
            crate::name::lemma_then_plain_empty(labels_emission(split_labels(b)));
        }
        loop
            invariant_except_break
                !too_long,
                labels_emission(split_labels(b)) == then(
                    plain(wire@),
                    labels_emission(split_from(b.subrange(start as int, n as int), seq![])),
                ),
            invariant
                bytes@ == b,
                n == b.len(),
                start <= n,
            ensures
                too_long ==> labels_emission(split_labels(b)) == (Emission {
                    bytes: wire@,
                    stop: Some(DnsError::LabelTooLong),
                }),
                !too_long ==> labels_emission(split_labels(b)) == plain(wire@),
            decreases n - start,
        {
            let mut end = start;
            while end < n && bytes[end] != DOT
                invariant
                    bytes@ == b,
                    n == b.len(),
                    start <= end <= n,
                    forall|i: int| start <= i < end ==> b[i] != DOT,
                decreases n - end,
            {
                end += 1;
            }
            let ghost cur = b.subrange(start as int, end as int);
            let ghost rest = if end < n {
                split_from(b.subrange(end + 1, n as int), seq![])
            } else {
                Seq::<Seq<u8>>::empty()
            };
            proof {
                lemma_split_skip(b, start as int, end as int, seq![]);
                assert(seq![] + cur =~= cur);
                if end < n {
                    lemma_split_dot(b, end as int, cur);
                } else {
                    assert(b.subrange(end as int, n as int) =~= Seq::<u8>::empty());
                }
                assert((seq![cur] + rest).drop_first() =~= rest);
                assert((seq![cur] + rest)[0] == cur);
                lemma_then_assoc(plain(wire@), label_emission(cur), labels_emission(rest));
            }
            let len = end - start;
            if len > MAX_LABEL_LEN {
                too_long = true;
                break;
            }
            let ghost w0 = wire@;
            wire.push(len as u8);
            let mut i = start;
            while i < end
                invariant
                    bytes@ == b,
                    n == b.len(),
                    start <= i <= end <= n,
                    len == end - start,
                    len <= MAX_LABEL_LEN,
                    wire@ == w0 + seq![len as u8] + b.subrange(start as int, i as int),
                decreases end - i,
            {
                wire.push(bytes[i]);
                i += 1;
                assert(wire@ =~= w0 + seq![len as u8] + b.subrange(start as int, i as int));
            }
            assert(w0 + (seq![len as u8] + cur) =~= wire@);
            if end == n {
                assert(labels_emission(rest) == plain(seq![]));
                assert(wire@ + seq![] =~= wire@);
                break;
            }
            start = end + 1;
        }
        let ghost w0 = wire@;
        if !too_long {
            wire.push(0);
        }
        proof {
            assert(b == encode_utf8(query_name@));
            if !too_long {
                assert(w0 + seq![0u8] =~= wire@);
            }
        }
        let r = self.write_all(&wire);
        if r.is_err() || !too_long {
            return r;
        }
        Err(DnsError::LabelTooLong)
    }

    /// Decodes the name at the cursor, following compression pointers, and
    /// appends it to `out`: its labels in lower case, joined by dots.
    pub fn read_query_name(&mut self, out: &mut String) -> (r: Result<()>)
        ensures
            final(self).buffer == old(self).buffer,
            match scan_name(old(self).bytes(), old(self).position as int, 0) {
                Ok((ls, end)) => {
                    &&& r is Ok
                    &&& final(self).position == end
                    &&& final(out)@ == old(out)@ + name_text(ls)
                },
                Err(e) => r == Err::<(), DnsError>(e),
            },
    {
        let ghost buf = self.bytes();
        let ghost start = self.position as int;
        let mut position = self.position;
        let mut jumped = false;
        let mut jumped_cnt: usize = 0;
        let mut name: Vec<u8> = Vec::new();
        let mut first = true;
        let ghost mut labels: Seq<Seq<u8>> = seq![];
        proof {
            let s = scan_name(buf, start, 0);
            if s is Ok {
                assert(seq![] + s->Ok_0.0 =~= s->Ok_0.0);
            }
        }
        loop
            invariant_except_break
                resumed(labels, jumped, self.position as int, scan_name(buf, position as int, jumped_cnt as int))
                    == scan_name(buf, start, 0),
            invariant
                self.buffer == old(self).buffer,
                buf == old(self).bytes(),
                start == old(self).position,
                jumped_cnt <= MAX_JUMPS + 1,
                jumped == (jumped_cnt > 0),
                !jumped ==> self.position == old(self).position,
                name@ == name_bytes(labels),
                first == (labels.len() == 0),
            ensures
                self.buffer == old(self).buffer,
                jumped ==> scan_name(buf, start, 0) == Ok::<(Seq<Seq<u8>>, int), DnsError>((labels, self.position as int)),
                !jumped ==> scan_name(buf, start, 0) == Ok::<(Seq<Seq<u8>>, int), DnsError>((labels, position as int)),
                name@ == name_bytes(labels),
            decreases MAX_JUMPS + 1 - jumped_cnt, LIMIT_OF_BUFFER - position,
        {
            if jumped_cnt > MAX_JUMPS {
                return Err(DnsError::CompressionLoop);
            }
            let len = self.get(position)?;
            proof {
                lemma_pointer_octet(len, 0);
            }
            if (len & 0xC0) == 0xC0 {
                if !jumped {
                    self.seek(position + 2)?;
                }
                let b2 = self.get(position + 1)?;
                proof {
                    lemma_pointer_octet(len, b2);
                }
                let b2 = b2 as u16;
                let offset = (((len as u16) ^ 0xC0) << 8) | b2;
                position = offset as usize;
                jumped = true;
                jumped_cnt += 1;
            } else {
                let ghost p = position as int;
                position += 1;
                if len == 0 {
                    assert(labels + seq![] =~= labels);
                    break;
                }
                let label = self.get_range(position, len as usize)?;
                let ghost l = label@;
                let ghost n0 = name@;
                if !first {
                    name.push(DOT);
                }
                let mut i: usize = 0;
                while i < label.len()
                    invariant
                        label@ == l,
                        i <= l.len(),
                        name@ == (if labels.len() > 0 { n0 + seq![DOT] } else { n0 }) + lower_label(l).subrange(0, i as int),
                    decreases l.len() - i,
                {
                    let b = label[i];
                    let lowered = if b >= 0x41 && b <= 0x5A { b + 0x20 } else { b };
                    name.push(lowered);
                    i += 1;
                    assert(name@ =~= (if labels.len() > 0 { n0 + seq![DOT] } else { n0 }) + lower_label(l).subrange(0, i as int));
                }
                proof {
                    let lows = labels.map_values(|x: Seq<u8>| lower_label(x));
                    assert(labels.push(l).map_values(|x: Seq<u8>| lower_label(x)) =~= lows.push(lower_label(l)));
                    lemma_join_push(lows, lower_label(l));
                    assert(lower_label(l).subrange(0, l.len() as int) =~= lower_label(l));
                    let rest = scan_name(buf, position + len as int, jumped_cnt as int);
                    if rest is Ok {
                        assert(labels + (seq![l] + rest->Ok_0.0) =~= labels.push(l) + rest->Ok_0.0);
                    }
                    labels = labels.push(l);
                }
                first = false;
                position += len as usize;
            }
        }
        if !jumped {
            self.seek(position)?;
        }
        let text = text_from_bytes(name.as_slice());
        out.append(text.as_str());
        Ok(())
    }
}

} // verus!
