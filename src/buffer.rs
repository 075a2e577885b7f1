use vstd::prelude::*;
use mio::buf::{Buf, MutBuf, RingBuf};

verus! {

/// Capacity of the inbound and outbound buffer of each connection.
pub const BUFFERSIZE: usize = 65000;

/// Why a read or a peek on a buffer gave no bytes.
#[derive(Debug, Clone, Copy, PartialEq, Eq, Structural)]
pub enum BufferError {
    /// Fewer unread bytes than the request needs: wait for more.
    InsufficientData,
    /// The store handed back fewer bytes than a request that passed the length check.
    ShortRead,
}

// ---------------------------------------------------------------------------
// The ring store of the `bytes` crate (re-exported by mio), behind trusted items.

#[verifier::external_type_specification]
#[verifier::external_body]
pub struct ExRingBuf(RingBuf);

/// The unread bytes of a ring store, oldest first.
pub uninterp spec fn ring_contents(b: RingBuf) -> Seq<u8>;

/// How many bytes a ring store can hold at once.
pub uninterp spec fn ring_capacity(b: RingBuf) -> nat;

/// The unread bytes as they stood when the read position was marked, if it is.
pub uninterp spec fn ring_mark(b: RingBuf) -> Option<Seq<u8>>;

/// Relies on `RingBuf::new`: an empty store whose capacity is `cap` rounded up to a power of two.
#[verifier::external_body]
fn ring_new(cap: usize) -> (r: RingBuf)
    requires
        cap <= BUFFERSIZE,
    ensures
        ring_contents(r) == Seq::<u8>::empty(),
        ring_capacity(r) >= cap,
        ring_mark(r) is None,
{
    RingBuf::new(cap)
}

/// Relies on `MutBuf::write_slice` of `RingBuf`: appends the leading bytes of `src` that fit.
#[verifier::external_body]
fn ring_write(b: &mut RingBuf, src: &[u8]) -> (n: usize)
    ensures
        n as int == vstd::math::min(
            src@.len() as int,
            ring_capacity(*old(b)) - ring_contents(*old(b)).len(),
        ),
        ring_contents(*final(b)) == ring_contents(*old(b)) + src@.take(n as int),
        ring_capacity(*final(b)) == ring_capacity(*old(b)),
        ring_mark(*old(b)) is None ==> ring_mark(*final(b)) is None,
{
    b.write_slice(src)
}

/// Relies on `Buf::advance` of `RingBuf`: drops up to `cnt` unread bytes from the front.
#[verifier::external_body]
fn ring_advance(b: &mut RingBuf, cnt: usize)
    ensures
        ring_contents(*final(b)) == ring_contents(*old(b)).skip(
            vstd::math::min(cnt as int, ring_contents(*old(b)).len() as int),
        ),
        ring_capacity(*final(b)) == ring_capacity(*old(b)),
        ring_mark(*final(b)) == ring_mark(*old(b)),
{
    <RingBuf as Buf>::advance(b, cnt)
}

/// Relies on `Buf::read_slice` of `RingBuf`: moves the leading unread bytes into `dst`,
/// as many as both hold.
#[verifier::external_body]
fn ring_read(b: &mut RingBuf, dst: &mut Vec<u8>) -> (n: usize)
    ensures
        n as int == vstd::math::min(old(dst)@.len() as int, ring_contents(*old(b)).len() as int),
        final(dst)@.len() == old(dst)@.len(),
        final(dst)@.take(n as int) == ring_contents(*old(b)).take(n as int),
        final(dst)@.skip(n as int) == old(dst)@.skip(n as int),
        ring_contents(*final(b)) == ring_contents(*old(b)).skip(n as int),
        ring_capacity(*final(b)) == ring_capacity(*old(b)),
        ring_mark(*final(b)) == ring_mark(*old(b)),
{
    b.read_slice(&mut dst[..])
}

/// Relies on `RingBuf::mark`: remembers the current read position.
#[verifier::external_body]
fn ring_set_mark(b: &mut RingBuf)
    ensures
        ring_contents(*final(b)) == ring_contents(*old(b)),
        ring_capacity(*final(b)) == ring_capacity(*old(b)),
        ring_mark(*final(b)) == Some(ring_contents(*old(b))),
{
    b.mark()
}

/// Relies on `RingBuf::reset`: returns to the marked read position and clears the mark
/// (it panics when no mark is set).
#[verifier::external_body]
fn ring_reset(b: &mut RingBuf)
    requires
        ring_mark(*old(b)) is Some,
    ensures
        ring_contents(*final(b)) == ring_mark(*old(b))->0,
        ring_capacity(*final(b)) == ring_capacity(*old(b)),
        ring_mark(*final(b)) is None,
{
    b.reset()
}

// ---------------------------------------------------------------------------
// Mathematical model.

/// The unsigned number that `s` spells with its first byte most significant.
pub open spec fn be_value(s: Seq<u8>) -> nat
    decreases s.len(),
{
    if s.len() == 0 {
        0
    } else {
        be_value(s.drop_last()) * 256 + s.last() as nat
    }
}

/// The unread bytes after `s` was appended to `v` in a store of capacity `cap`:
/// the oldest bytes give way when the two together do not fit.
pub open spec fn appended(v: Seq<u8>, s: Seq<u8>, cap: nat) -> Seq<u8> {
    let all = v + s;
    if all.len() <= cap {
        all
    } else {
        all.skip(all.len() - cap)
    }
}

/// How many unread bytes an append of `s` to `v` discards.
pub open spec fn discarded(v: Seq<u8>, s: Seq<u8>, cap: nat) -> nat {
    if v.len() + s.len() <= cap {
        0
    } else {
        (v.len() + s.len() - cap) as nat
    }
}

/// What a peek of `size` bytes at `offset` finds in the unread bytes `v`.
pub open spec fn peeked(v: Seq<u8>, offset: nat, size: nat) -> Result<Seq<u8>, BufferError> {
    if v.len() < offset + size {
        Err(BufferError::InsufficientData)
    } else {
        Ok(v.subrange(offset as int, (offset + size) as int))
    }
}

/// What a read of `size` bytes returns from the unread bytes `v`.
pub open spec fn taken(v: Seq<u8>, size: nat) -> Result<Seq<u8>, BufferError> {
    peeked(v, 0, size)
}

/// The unread bytes left after a read of `size` bytes from `v`.
pub open spec fn after_take(v: Seq<u8>, size: nat) -> Seq<u8> {
    if v.len() < size {
        v
    } else {
        v.skip(size as int)
    }
}

/// The value that `k` bytes at `offset` of `v` spell, if they are there.
pub open spec fn decoded(v: Seq<u8>, offset: nat, k: nat) -> Result<nat, BufferError> {
    match peeked(v, offset, k) {
        Ok(s) => Ok(be_value(s)),
        Err(e) => Err(e),
    }
}

// ---------------------------------------------------------------------------
// Byte composition, most significant byte first.

proof fn lemma_be_value_bound(s: Seq<u8>)
    ensures
        be_value(s) < pow256(s.len()),
    decreases s.len(),
{
    if s.len() > 0 {
        lemma_be_value_bound(s.drop_last());
        let p = pow256((s.len() - 1) as nat);
        assert(be_value(s.drop_last()) * 256 + (s.last() as nat) < p * 256) by (nonlinear_arith)
            requires
                be_value(s.drop_last()) < p,
                s.last() < 256,
        ;
    }
}

/// 256 to the power `n`.
pub open spec fn pow256(n: nat) -> nat
    decreases n,
{
    if n == 0 {
        1
    } else {
        pow256((n - 1) as nat) * 256
    }
}

fn compose_u16(b: &Vec<u8>) -> (r: u16)
    requires
        b@.len() == 2,
    ensures
        r as nat == be_value(b@),
{
    let (b0, b1) = (b[0], b[1]);
    proof {
        reveal_with_fuel(be_value, 3);
        assert(b@.drop_last().drop_last().len() == 0);
    }
    let r = ((b0 as u16) << 8u16) | (b1 as u16);
    assert(r == (b0 as u16) * 256 + (b1 as u16)) by (bit_vector)
        requires
            r == ((b0 as u16) << 8u16) | (b1 as u16),
    ;
    r
}

fn compose_u32(b: &Vec<u8>) -> (r: u32)
    requires
        b@.len() == 4,
    ensures
        r as nat == be_value(b@),
{
    let (b0, b1, b2, b3) = (b[0], b[1], b[2], b[3]);
    proof {
        reveal_with_fuel(be_value, 5);
        assert(b@.drop_last().drop_last().drop_last().drop_last().len() == 0);
    }
    let r = ((b0 as u32) << 24u32) | ((b1 as u32) << 16u32) | ((b2 as u32) << 8u32) | (b3 as u32);
    assert(r == (((b0 as u32) * 256 + (b1 as u32)) * 256 + (b2 as u32)) * 256 + (b3 as u32))
        by (bit_vector)
        requires
            r == ((b0 as u32) << 24u32) | ((b1 as u32) << 16u32) | ((b2 as u32) << 8u32) | (
            b3 as u32),
    ;
    r
}

fn compose_u64(b: &Vec<u8>) -> (r: u64)
    requires
        b@.len() == 8,
    ensures
        r as nat == be_value(b@),
{
    let hi = vec![b[0], b[1], b[2], b[3]];
    let lo = vec![b[4], b[5], b[6], b[7]];
    let h = compose_u32(&hi);
    let l = compose_u32(&lo);
    proof {
        lemma_be_value_split(b@, 4);
        assert(hi@ =~= b@.take(4));
        assert(lo@ =~= b@.skip(4));
        reveal_with_fuel(pow256, 5);
    }
    let r = ((h as u64) << 32u64) | (l as u64);
    assert(r == (h as u64) * 0x1_0000_0000 + (l as u64)) by (bit_vector)
        requires
            r == ((h as u64) << 32u64) | (l as u64),
    ;
    r
}

/// Splitting a byte string at `k` splits its value: high part times 256^(len-k) plus low part.
proof fn lemma_be_value_split(s: Seq<u8>, k: nat)
    requires
        k <= s.len(),
    ensures
        be_value(s) == be_value(s.take(k as int)) * pow256((s.len() - k) as nat) + be_value(
            s.skip(k as int),
        ),
    decreases s.len(),
{
    if s.len() == k {
        assert(s.take(k as int) =~= s);
        assert(s.skip(k as int).len() == 0);
        assert(be_value(s.skip(k as int)) == 0);
        assert(pow256((s.len() - k) as nat) == 1);
    } else {
        let t = s.drop_last();
        lemma_be_value_split(t, k);
        assert(s.skip(k as int).len() > 0);
        assert(be_value(s.skip(k as int)) == be_value(s.skip(k as int).drop_last()) * 256
            + s.skip(k as int).last() as nat);
        assert(pow256((s.len() - k) as nat) == pow256((t.len() - k) as nat) * 256);
        assert(t.take(k as int) =~= s.take(k as int));
        assert(s.skip(k as int).drop_last() =~= t.skip(k as int));
        assert(s.skip(k as int).last() == s.last());
        let a = be_value(s.take(k as int));
        let p = pow256((t.len() - k) as nat);
        let c = be_value(t.skip(k as int));
        let l = s.last() as nat;
        assert(be_value(s) == be_value(t) * 256 + l);
        assert(be_value(t) == a * p + c);
        assert(be_value(s.skip(k as int)) == c * 256 + l);
        assert(pow256((s.len() - k) as nat) == p * 256);
        assert((a * p + c) * 256 + l == a * (p * 256) + (c * 256 + l)) by (nonlinear_arith);
        assert(be_value(s) == a * pow256((s.len() - k) as nat) + be_value(s.skip(k as int)));
    }
}

/// The two's-complement reading of the `k`-byte unsigned value `v`.
pub open spec fn as_signed(v: nat, k: nat) -> int {
    if v < pow256(k) / 2 {
        v as int
    } else {
        v - pow256(k)
    }
}

fn signed_8(x: u8) -> (r: i8)
    ensures
        r as int == as_signed(x as nat, 1),
{
    proof {
        reveal_with_fuel(pow256, 2);
    }
    let r = #[verifier::truncate] (x as i8);
    assert(r as int == if x < 0x80 { x as int } else { x as int - 0x100 }) by (bit_vector)
        requires
            r == #[verifier::truncate] (x as i8),
    ;
    r
}

fn signed_16(x: u16) -> (r: i16)
    ensures
        r as int == as_signed(x as nat, 2),
{
    proof {
        reveal_with_fuel(pow256, 3);
    }
    let r = #[verifier::truncate] (x as i16);
    assert(r as int == if x < 0x8000 { x as int } else { x as int - 0x1_0000 }) by (bit_vector)
        requires
            r == #[verifier::truncate] (x as i16),
    ;
    r
}

fn signed_32(x: u32) -> (r: i32)
    ensures
        r as int == as_signed(x as nat, 4),
{
    proof {
        reveal_with_fuel(pow256, 5);
    }
    let r = #[verifier::truncate] (x as i32);
    assert(r as int == if x < 0x8000_0000 { x as int } else { x as int - 0x1_0000_0000 }) by (bit_vector)
        requires
            r == #[verifier::truncate] (x as i32),
    ;
    r
}

fn signed_64(x: u64) -> (r: i64)
    ensures
        r as int == as_signed(x as nat, 8),
{
    proof {
        reveal_with_fuel(pow256, 9);
    }
    let r = #[verifier::truncate] (x as i64);
    assert(r as int == if x < 0x8000_0000_0000_0000 { x as int } else { x as int - 0x1_0000_0000_0000_0000 }) by (bit_vector)
        requires
            r == #[verifier::truncate] (x as i64),
    ;
    r
}

// ---------------------------------------------------------------------------
// Decoders on top of a byte source.

/// A source of bytes that hands out its unread bytes in order, consuming them.
pub trait BinaryReadable {
    /// The unread bytes, oldest first.
    spec fn unread(&self) -> Seq<u8>;

    /// The source's internal consistency.
    spec fn well_formed(&self) -> bool;

    /// How many unread bytes the source keeps at most.
    spec fn bound(&self) -> nat;

    /// Consumes and returns the next `size` bytes; fails, consuming nothing,
    /// when fewer are unread.
    fn read_bytes(&mut self, size: usize) -> (r: Result<Vec<u8>, BufferError>)
        requires
            old(self).well_formed(),
        ensures
            final(self).well_formed(),
            final(self).bound() == old(self).bound(),
            r matches Ok(v) ==> taken(old(self).unread(), size as nat) == Ok::<
                Seq<u8>,
                BufferError,
            >(v@),
            r matches Err(e) ==> taken(old(self).unread(), size as nat) == Err::<
                Seq<u8>,
                BufferError,
            >(e),
            final(self).unread() == after_take(old(self).unread(), size as nat),
    ;

    fn read_u8(&mut self) -> (r: Result<u8, BufferError>)
        requires
            old(self).well_formed(),
        ensures
            final(self).well_formed(),
            final(self).bound() == old(self).bound(),
            final(self).unread() == after_take(old(self).unread(), 1),
            r matches Ok(x) ==> decoded(old(self).unread(), 0, 1) == Ok::<nat, BufferError>(
                x as nat,
            ),
            r matches Err(e) ==> decoded(old(self).unread(), 0, 1) == Err::<nat, BufferError>(e),
    {
        match self.read_bytes(1) {
            Ok(buf) => {
                proof {
                    reveal_with_fuel(be_value, 2);
                    assert(buf@.drop_last().len() == 0);
                }
                Ok(buf[0])
            },
            Err(e) => Err(e),
        }
    }

    fn read_i8(&mut self) -> (r: Result<i8, BufferError>)
        requires
            old(self).well_formed(),
        ensures
            final(self).well_formed(),
            final(self).bound() == old(self).bound(),
            final(self).unread() == after_take(old(self).unread(), 1),
            r matches Ok(x) ==> decoded(old(self).unread(), 0, 1) matches Ok(v) && x as int
                == as_signed(v, 1),
            r matches Err(e) ==> decoded(old(self).unread(), 0, 1) == Err::<nat, BufferError>(e),
    {
        match self.read_u8() {
            Ok(x) => Ok(signed_8(x)),
            Err(e) => Err(e),
        }
    }

    fn read_u16(&mut self) -> (r: Result<u16, BufferError>)
        requires
            old(self).well_formed(),
        ensures
            final(self).well_formed(),
            final(self).bound() == old(self).bound(),
            final(self).unread() == after_take(old(self).unread(), 2),
            r matches Ok(x) ==> decoded(old(self).unread(), 0, 2) == Ok::<nat, BufferError>(
                x as nat,
            ),
            r matches Err(e) ==> decoded(old(self).unread(), 0, 2) == Err::<nat, BufferError>(e),
    {
        match self.read_bytes(2) {
            Ok(buf) => Ok(compose_u16(&buf)),
            Err(e) => Err(e),
        }
    }

    fn read_i16(&mut self) -> (r: Result<i16, BufferError>)
        requires
            old(self).well_formed(),
        ensures
            final(self).well_formed(),
            final(self).bound() == old(self).bound(),
            final(self).unread() == after_take(old(self).unread(), 2),
            r matches Ok(x) ==> decoded(old(self).unread(), 0, 2) matches Ok(v) && x as int
                == as_signed(v, 2),
            r matches Err(e) ==> decoded(old(self).unread(), 0, 2) == Err::<nat, BufferError>(e),
    {
        match self.read_u16() {
            Ok(x) => Ok(signed_16(x)),
            Err(e) => Err(e),
        }
    }

    fn read_u32(&mut self) -> (r: Result<u32, BufferError>)
        requires
            old(self).well_formed(),
        ensures
            final(self).well_formed(),
            final(self).bound() == old(self).bound(),
            final(self).unread() == after_take(old(self).unread(), 4),
            r matches Ok(x) ==> decoded(old(self).unread(), 0, 4) == Ok::<nat, BufferError>(
                x as nat,
            ),
            r matches Err(e) ==> decoded(old(self).unread(), 0, 4) == Err::<nat, BufferError>(e),
    {
        match self.read_bytes(4) {
            Ok(buf) => Ok(compose_u32(&buf)),
            Err(e) => Err(e),
        }
    }

    fn read_i32(&mut self) -> (r: Result<i32, BufferError>)
        requires
            old(self).well_formed(),
        ensures
            final(self).well_formed(),
            final(self).bound() == old(self).bound(),
            final(self).unread() == after_take(old(self).unread(), 4),
            r matches Ok(x) ==> decoded(old(self).unread(), 0, 4) matches Ok(v) && x as int
                == as_signed(v, 4),
            r matches Err(e) ==> decoded(old(self).unread(), 0, 4) == Err::<nat, BufferError>(e),
    {
        match self.read_u32() {
            Ok(x) => Ok(signed_32(x)),
            Err(e) => Err(e),
        }
    }

    fn read_u64(&mut self) -> (r: Result<u64, BufferError>)
        requires
            old(self).well_formed(),
        ensures
            final(self).well_formed(),
            final(self).bound() == old(self).bound(),
            final(self).unread() == after_take(old(self).unread(), 8),
            r matches Ok(x) ==> decoded(old(self).unread(), 0, 8) == Ok::<nat, BufferError>(
                x as nat,
            ),
            r matches Err(e) ==> decoded(old(self).unread(), 0, 8) == Err::<nat, BufferError>(e),
    {
        match self.read_bytes(8) {
            Ok(buf) => Ok(compose_u64(&buf)),
            Err(e) => Err(e),
        }
    }

    fn read_i64(&mut self) -> (r: Result<i64, BufferError>)
        requires
            old(self).well_formed(),
        ensures
            final(self).well_formed(),
            final(self).bound() == old(self).bound(),
            final(self).unread() == after_take(old(self).unread(), 8),
            r matches Ok(x) ==> decoded(old(self).unread(), 0, 8) matches Ok(v) && x as int
                == as_signed(v, 8),
            r matches Err(e) ==> decoded(old(self).unread(), 0, 8) == Err::<nat, BufferError>(e),
    {
        match self.read_u64() {
            Ok(x) => Ok(signed_64(x)),
            Err(e) => Err(e),
        }
    }
}

/// A source of bytes that can be looked at ahead of the read position without consuming them.
pub trait BinaryPeekable: BinaryReadable {
    /// Returns the `size` bytes that start `offset` bytes after the read position,
    /// leaving the unread bytes as they are.
    fn peek_bytes(&mut self, offset: usize, size: usize) -> (r: Result<Vec<u8>, BufferError>)
        requires
            old(self).well_formed(),
        ensures
            final(self).well_formed(),
            final(self).bound() == old(self).bound(),
            final(self).unread() == old(self).unread(),
            r matches Ok(v) ==> peeked(old(self).unread(), offset as nat, size as nat) == Ok::<
                Seq<u8>,
                BufferError,
            >(v@),
            r matches Err(e) ==> peeked(old(self).unread(), offset as nat, size as nat) == Err::<
                Seq<u8>,
                BufferError,
            >(e),
    ;

    fn peek_u8(&mut self, offset: usize) -> (r: Result<u8, BufferError>)
        requires
            old(self).well_formed(),
        ensures
            final(self).well_formed(),
            final(self).bound() == old(self).bound(),
            final(self).unread() == old(self).unread(),
            r matches Ok(x) ==> decoded(old(self).unread(), offset as nat, 1) == Ok::<
                nat,
                BufferError,
            >(x as nat),
            r matches Err(e) ==> decoded(old(self).unread(), offset as nat, 1) == Err::<
                nat,
                BufferError,
            >(e),
    {
        match self.peek_bytes(offset, 1) {
            Ok(buf) => {
                proof {
                    reveal_with_fuel(be_value, 2);
                    assert(buf@.drop_last().len() == 0);
                }
                Ok(buf[0])
            },
            Err(e) => Err(e),
        }
    }

    fn peek_i8(&mut self, offset: usize) -> (r: Result<i8, BufferError>)
        requires
            old(self).well_formed(),
        ensures
            final(self).well_formed(),
            final(self).bound() == old(self).bound(),
            final(self).unread() == old(self).unread(),
            r matches Ok(x) ==> decoded(old(self).unread(), offset as nat, 1) matches Ok(v)
                && x as int == as_signed(v, 1),
            r matches Err(e) ==> decoded(old(self).unread(), offset as nat, 1) == Err::<
                nat,
                BufferError,
            >(e),
    {
        match self.peek_u8(offset) {
            Ok(x) => Ok(signed_8(x)),
            Err(e) => Err(e),
        }
    }

    fn peek_u16(&mut self, offset: usize) -> (r: Result<u16, BufferError>)
        requires
            old(self).well_formed(),
        ensures
            final(self).well_formed(),
            final(self).bound() == old(self).bound(),
            final(self).unread() == old(self).unread(),
            r matches Ok(x) ==> decoded(old(self).unread(), offset as nat, 2) == Ok::<
                nat,
                BufferError,
            >(x as nat),
            r matches Err(e) ==> decoded(old(self).unread(), offset as nat, 2) == Err::<
                nat,
                BufferError,
            >(e),
    {
        match self.peek_bytes(offset, 2) {
            Ok(buf) => Ok(compose_u16(&buf)),
            Err(e) => Err(e),
        }
    }

    fn peek_i16(&mut self, offset: usize) -> (r: Result<i16, BufferError>)
        requires
            old(self).well_formed(),
        ensures
            final(self).well_formed(),
            final(self).bound() == old(self).bound(),
            final(self).unread() == old(self).unread(),
            r matches Ok(x) ==> decoded(old(self).unread(), offset as nat, 2) matches Ok(v)
                && x as int == as_signed(v, 2),
            r matches Err(e) ==> decoded(old(self).unread(), offset as nat, 2) == Err::<
                nat,
                BufferError,
            >(e),
    {
        match self.peek_u16(offset) {
            Ok(x) => Ok(signed_16(x)),
            Err(e) => Err(e),
        }
    }

    fn peek_u32(&mut self, offset: usize) -> (r: Result<u32, BufferError>)
        requires
            old(self).well_formed(),
        ensures
            final(self).well_formed(),
            final(self).bound() == old(self).bound(),
            final(self).unread() == old(self).unread(),
            r matches Ok(x) ==> decoded(old(self).unread(), offset as nat, 4) == Ok::<
                nat,
                BufferError,
            >(x as nat),
            r matches Err(e) ==> decoded(old(self).unread(), offset as nat, 4) == Err::<
                nat,
                BufferError,
            >(e),
    {
        match self.peek_bytes(offset, 4) {
            Ok(buf) => Ok(compose_u32(&buf)),
            Err(e) => Err(e),
        }
    }

    fn peek_i32(&mut self, offset: usize) -> (r: Result<i32, BufferError>)
        requires
            old(self).well_formed(),
        ensures
            final(self).well_formed(),
            final(self).bound() == old(self).bound(),
            final(self).unread() == old(self).unread(),
            r matches Ok(x) ==> decoded(old(self).unread(), offset as nat, 4) matches Ok(v)
                && x as int == as_signed(v, 4),
            r matches Err(e) ==> decoded(old(self).unread(), offset as nat, 4) == Err::<
                nat,
                BufferError,
            >(e),
    {
        match self.peek_u32(offset) {
            Ok(x) => Ok(signed_32(x)),
            Err(e) => Err(e),
        }
    }

    fn peek_u64(&mut self, offset: usize) -> (r: Result<u64, BufferError>)
        requires
            old(self).well_formed(),
        ensures
            final(self).well_formed(),
            final(self).bound() == old(self).bound(),
            final(self).unread() == old(self).unread(),
            r matches Ok(x) ==> decoded(old(self).unread(), offset as nat, 8) == Ok::<
                nat,
                BufferError,
            >(x as nat),
            r matches Err(e) ==> decoded(old(self).unread(), offset as nat, 8) == Err::<
                nat,
                BufferError,
            >(e),
    {
        match self.peek_bytes(offset, 8) {
            Ok(buf) => Ok(compose_u64(&buf)),
            Err(e) => Err(e),
        }
    }

    fn peek_i64(&mut self, offset: usize) -> (r: Result<i64, BufferError>)
        requires
            old(self).well_formed(),
        ensures
            final(self).well_formed(),
            final(self).bound() == old(self).bound(),
            final(self).unread() == old(self).unread(),
            r matches Ok(x) ==> decoded(old(self).unread(), offset as nat, 8) matches Ok(v)
                && x as int == as_signed(v, 8),
            r matches Err(e) ==> decoded(old(self).unread(), offset as nat, 8) == Err::<
                nat,
                BufferError,
            >(e),
    {
        match self.peek_u64(offset) {
            Ok(x) => Ok(signed_64(x)),
            Err(e) => Err(e),
        }
    }
}

// ---------------------------------------------------------------------------
// The buffer.

/// A byte store of fixed capacity: bytes are appended at the back and read, peeked
/// at or skipped from the front. When an append does not fit, the oldest unread
/// bytes give way.
pub struct Buffer {
    buffer: RingBuf,
    remaining: usize,
    capacity: usize,
}

impl Buffer {
    /// The unread bytes, oldest first.
    pub closed spec fn view(&self) -> Seq<u8> {
        ring_contents(self.buffer)
    }

    /// How many unread bytes the buffer keeps at most.
    pub closed spec fn cap(&self) -> nat {
        self.capacity as nat
    }

    pub closed spec fn inv(&self) -> bool {
        &&& ring_contents(self.buffer).len() == self.remaining
        &&& self.remaining <= self.capacity
        &&& self.capacity <= BUFFERSIZE
        &&& self.capacity <= ring_capacity(self.buffer)
        &&& ring_mark(self.buffer) is None
    }

    pub proof fn lemma_bounds(&self)
        requires
            self.inv(),
        ensures
            self@.len() <= self.cap(),
            self.cap() <= BUFFERSIZE,
    {
    }

    /// An empty buffer of the capacity that each connection uses.
    pub fn new() -> (r: Self)
        ensures
            r.inv(),
            r@ == Seq::<u8>::empty(),
            r.cap() == BUFFERSIZE,
    {
        Buffer::with_capacity(BUFFERSIZE)
    }

    /// An empty buffer that keeps at most `size` unread bytes.
    pub fn with_capacity(size: usize) -> (r: Self)
        requires
            size <= BUFFERSIZE,
        ensures
            r.inv(),
            r@ == Seq::<u8>::empty(),
            r.cap() == size,
    {
        Buffer { buffer: ring_new(size), remaining: 0, capacity: size }
    }

    pub fn bytes_remaining(&self) -> (r: usize)
        requires
            self.inv(),
        ensures
            r == self@.len(),
    {
        self.remaining
    }

    pub fn capacity(&self) -> (r: usize)
        requires
            self.inv(),
        ensures
            r == self.cap(),
    {
        self.capacity
    }

    /// Appends `bytes`; where they do not all fit, the oldest unread bytes are
    /// discarded first (and, beyond a whole buffer's worth, the leading new ones).
    /// Returns how many bytes were discarded, so that the loss can be reported.
    pub fn append(&mut self, bytes: &[u8]) -> (dropped: usize)
        requires
            old(self).inv(),
        ensures
            final(self).inv(),
            final(self).cap() == old(self).cap(),
            final(self)@ == appended(old(self)@, bytes@, old(self).cap()),
            dropped == discarded(old(self)@, bytes@, old(self).cap()),
    {
        let n = bytes.len();
        let free = self.capacity - self.remaining;
        if n <= free {
            ring_write(&mut self.buffer, bytes);
            self.remaining = self.remaining + n;
            proof {
                assert(bytes@.take(n as int) =~= bytes@);
            }
            0
        } else if n <= self.capacity {
            let gone = n - free;
            ring_advance(&mut self.buffer, gone);
            ring_write(&mut self.buffer, bytes);
            self.remaining = self.capacity;
            proof {
                let v = old(self)@;
                let all = v + bytes@;
                assert(bytes@.take(n as int) =~= bytes@);
                assert(v.skip(gone as int) + bytes@ =~= all.skip(all.len() - self.capacity));
            }
            gone
        } else {
            let had = self.remaining;
            ring_advance(&mut self.buffer, had);
            let start = n - self.capacity;
            let mut tail: Vec<u8> = Vec::new();
            let mut i: usize = start;
            while i < n
                invariant
                    start <= i <= n,
                    n == bytes@.len(),
                    tail@ == bytes@.subrange(start as int, i as int),
                decreases n - i,
            {
                tail.push(bytes[i]);
                proof {
                    assert(tail@ =~= bytes@.subrange(start as int, i + 1));
                }
                i = i + 1;
            }
            ring_write(&mut self.buffer, tail.as_slice());
            self.remaining = self.capacity;
            proof {
                let v = old(self)@;
                let all = v + bytes@;
                assert(ring_contents(self.buffer) =~= tail@);
                assert(tail@ =~= all.skip(all.len() - self.capacity));
            }
            start + had
        }
    }

    /// Consumes `bytes` unread bytes without returning them.
    pub fn advance_read(&mut self, bytes: usize)
        requires
            old(self).inv(),
            bytes <= old(self)@.len(),
        ensures
            final(self).inv(),
            final(self).cap() == old(self).cap(),
            final(self)@ == old(self)@.skip(bytes as int),
    {
        ring_advance(&mut self.buffer, bytes);
        self.remaining = self.remaining - bytes;
    }

    /// Returns up to `len` unread bytes that start `offset` bytes after the read
    /// position, as many as there are, without consuming any.
    pub fn peek_max(&mut self, offset: usize, len: usize) -> (r: Vec<u8>)
        requires
            old(self).inv(),
        ensures
            final(self).inv(),
            final(self).cap() == old(self).cap(),
            final(self)@ == old(self)@,
            r@ == old(self)@.subrange(
                vstd::math::min(offset as int, old(self)@.len() as int),
                vstd::math::min(offset + len, old(self)@.len() as int),
            ),
    {
        if offset >= self.remaining {
            let empty: Vec<u8> = Vec::new();
            proof {
                assert(empty@ =~= old(self)@.subrange(old(self)@.len() as int, old(self)@.len() as int));
            }
            return empty;
        }
        let avail = self.remaining - offset;
        let size = if len < avail {
            len
        } else {
            avail
        };
        let r = self.peek_exact(offset, size);
        proof {
            assert(r@ =~= old(self)@.subrange(offset as int, offset + size));
        }
        r
    }

    /// The `size` bytes at `offset`, which are there; nothing is consumed.
    fn peek_exact(&mut self, offset: usize, size: usize) -> (r: Vec<u8>)
        requires
            old(self).inv(),
            offset + size <= old(self)@.len(),
        ensures
            final(self).inv(),
            final(self).cap() == old(self).cap(),
            final(self)@ == old(self)@,
            r@ == old(self)@.subrange(offset as int, offset + size),
    {
        ring_set_mark(&mut self.buffer);
        ring_advance(&mut self.buffer, offset);
        let mut buf: Vec<u8> = vec![0u8; size];
        let n = ring_read(&mut self.buffer, &mut buf);
        ring_reset(&mut self.buffer);
        proof {
            assert(buf@ =~= buf@.take(n as int));
            assert(buf@ =~= old(self)@.subrange(offset as int, offset + size));
        }
        buf
    }
}

impl BinaryReadable for Buffer {
    open spec fn unread(&self) -> Seq<u8> {
        self@
    }

    open spec fn well_formed(&self) -> bool {
        self.inv()
    }

    open spec fn bound(&self) -> nat {
        self.cap()
    }

    fn read_bytes(&mut self, size: usize) -> (r: Result<Vec<u8>, BufferError>) {
        if self.remaining < size {
            return Err(BufferError::InsufficientData);
        }
        let mut buf: Vec<u8> = vec![0u8; size];
        let n = ring_read(&mut self.buffer, &mut buf);
        if n != size {
            return Err(BufferError::ShortRead);
        }
        self.remaining = self.remaining - size;
        proof {
            assert(buf@ =~= buf@.take(n as int));
            assert(buf@ =~= old(self)@.subrange(0, size as int));
        }
        Ok(buf)
    }
}

impl BinaryPeekable for Buffer {
    fn peek_bytes(&mut self, offset: usize, size: usize) -> (r: Result<Vec<u8>, BufferError>) {
        if self.remaining < size || self.remaining - size < offset {
            return Err(BufferError::InsufficientData);
        }
        Ok(self.peek_exact(offset, size))
    }
}

// ---------------------------------------------------------------------------
// Laws.

/// Bytes written into an empty buffer that holds them, and read back as one
/// integer of their width, give the number they spell most significant byte
/// first, and that number fits the width.
pub proof fn lemma_write_then_read(s: Seq<u8>, cap: nat)
    requires
        1 <= s.len() <= 8,
        s.len() <= cap,
    ensures
        decoded(appended(Seq::<u8>::empty(), s, cap), 0, s.len()) == Ok::<nat, BufferError>(
            be_value(s),
        ),
        be_value(s) < pow256(s.len()),
{
    let v = appended(Seq::<u8>::empty(), s, cap);
    assert(Seq::<u8>::empty() + s =~= s);
    assert(v.subrange(0, s.len() as int) =~= s);
    lemma_be_value_bound(s);
}

/// A peek leaves the unread bytes alone, so that a later read sees what it would
/// have seen without it; what the peek finds at `offset` is what a read would
/// find once `offset` bytes are consumed.
pub proof fn lemma_peek_is_read_ahead(v: Seq<u8>, offset: nat, size: nat)
    requires
        offset <= v.len(),
    ensures
        peeked(v, offset, size) == taken(after_take(v, offset), size),
        peeked(v, 0, size) == taken(v, size),
{
    let w = after_take(v, offset);
    assert(w =~= v.skip(offset as int));
    if v.len() >= offset + size {
        assert(w.subrange(0, size as int) =~= v.subrange(offset as int, (offset + size) as int));
    }
}

/// Appends that fit together are all kept, in the order they were made: no
/// bytes are lost between them.
pub proof fn lemma_appends_accumulate(v: Seq<u8>, a: Seq<u8>, b: Seq<u8>, cap: nat)
    requires
        v.len() + a.len() + b.len() <= cap,
    ensures
        appended(appended(v, a, cap), b, cap) == v + a + b,
        discarded(v, a, cap) == 0,
        discarded(appended(v, a, cap), b, cap) == 0,
{
}

/// An append that does not fit leaves the buffer exactly full, holding the
/// newest bytes.
pub proof fn lemma_overfull_append(v: Seq<u8>, s: Seq<u8>, cap: nat)
    requires
        v.len() <= cap,
        v.len() + s.len() > cap,
    ensures
        appended(v, s, cap).len() == cap,
        appended(v, s, cap) == (v + s).skip((v.len() + s.len() - cap) as int),
        discarded(v, s, cap) == v.len() + s.len() - cap,
{
}

} // verus!
