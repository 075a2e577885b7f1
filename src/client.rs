use vstd::prelude::*;
use crate::buffer::{
    appended, be_value, discarded, BinaryPeekable, BinaryReadable, Buffer, BUFFERSIZE,
};

verus! {

/// Largest payload length that an extended length prefix may announce; a larger
/// value is read as an empty payload.
pub const MAX_EXTENDED_LEN: u16 = 2048;

/// How many inbound bytes one socket read takes at most.
pub const READ_WINDOW: usize = 2048;

/// How many outbound bytes one socket write is offered at most.
pub const WRITE_WINDOW: usize = 1024;

// ---------------------------------------------------------------------------
// Wire framing.

/// Where the next frame of `v` ends, as (prefix length, payload length), once
/// its length prefix has arrived.
pub open spec fn frame_layout(v: Seq<u8>) -> Option<(nat, nat)> {
    if v.len() < 1 {
        None
    } else if v[0] != 0 {
        Some((1, v[0] as nat))
    } else if v.len() < 3 {
        None
    } else {
        let ext = be_value(v.subrange(1, 3));
        Some((3, if ext > MAX_EXTENDED_LEN as nat { 0 } else { ext }))
    }
}

/// Length of the next frame of `v`: prefix, two header bytes, payload.
pub open spec fn frame_len(v: Seq<u8>) -> nat
    recommends
        frame_layout(v) is Some,
{
    let (p, n) = frame_layout(v)->0;
    p + 2 + n
}

/// Whether `v` starts with a whole frame.
pub open spec fn frame_ready(v: Seq<u8>) -> bool {
    frame_layout(v) is Some && v.len() >= frame_len(v)
}

/// The (header, payload) of the frame that `v` starts with.
pub open spec fn frame_packet(v: Seq<u8>) -> (nat, Seq<u8>)
    recommends
        frame_ready(v),
{
    let (p, _) = frame_layout(v)->0;
    (be_value(v.subrange(p as int, p + 2 as int)), v.subrange(p + 2 as int, frame_len(v) as int))
}

/// The packets of all whole frames at the front of `v`, in order.
pub open spec fn frames(v: Seq<u8>) -> Seq<(nat, Seq<u8>)>
    decreases v.len(),
{
    if frame_ready(v) && frame_len(v) > 0 {
        seq![frame_packet(v)] + frames(v.skip(frame_len(v) as int))
    } else {
        Seq::empty()
    }
}

/// What is left of `v` once its whole frames are taken.
pub open spec fn unframed(v: Seq<u8>) -> Seq<u8>
    decreases v.len(),
{
    if frame_ready(v) && frame_len(v) > 0 {
        unframed(v.skip(frame_len(v) as int))
    } else {
        v
    }
}

/// The bytes of one frame with the given header and payload, with the short
/// prefix when the payload length is 1 to 255 and the extended one otherwise.
pub open spec fn encode_frame(header: u16, payload: Seq<u8>) -> Seq<u8>
    recommends
        payload.len() <= MAX_EXTENDED_LEN,
{
    let n = payload.len();
    let h = seq![(header / 256) as u8, (header % 256) as u8];
    if 1 <= n <= 255 {
        seq![n as u8] + h + payload
    } else {
        seq![0u8, (n / 256) as u8, (n % 256) as u8] + h + payload
    }
}

// ---------------------------------------------------------------------------
// Packets.

/// One decoded frame: its header and its payload.
pub struct FiestaPacket {
    pub header: u16,
    pub data: Buffer,
}

impl FiestaPacket {
    /// The header and the payload bytes.
    pub open spec fn view(&self) -> (nat, Seq<u8>) {
        (self.header as nat, self.data@)
    }

    pub open spec fn inv(&self) -> bool {
        self.data.inv()
    }

    /// A packet with the given header and an empty payload store for `size` bytes.
    pub fn new(header: u16, size: usize) -> (r: Self)
        requires
            size <= BUFFERSIZE,
        ensures
            r.inv(),
            r@ == (header as nat, Seq::<u8>::empty()),
            r.data.cap() == size,
    {
        FiestaPacket { header, data: Buffer::with_capacity(size) }
    }
}

// ---------------------------------------------------------------------------
// Connections.

/// The readiness kinds that a connection wants to hear about.
#[derive(Debug, Clone, Copy, PartialEq, Eq, Structural)]
pub struct Interest {
    pub readable: bool,
    pub writable: bool,
}

impl Interest {
    pub fn all() -> (r: Interest)
        ensures
            r.readable && r.writable,
    {
        Interest { readable: true, writable: true }
    }
}

/// What a socket read gave.
pub enum ReadOutcome {
    /// These bytes arrived; none at all means that the peer closed.
    Received(Vec<u8>),
    /// Nothing to read yet.
    WouldBlock,
    /// The read failed.
    Failed,
}

/// What a socket write gave.
pub enum WriteOutcome {
    /// This many of the offered bytes were written.
    Sent(usize),
    /// The socket cannot take bytes yet.
    WouldBlock,
    /// The write failed.
    Failed,
}

/// The per-connection state: inbound and outbound bytes, decoded packets that
/// wait for dispatch, liveness and readiness interest.
pub struct FiestaNetworkClient {
    read_buffer: Buffer,
    write_buffer: Buffer,
    packet_queue: Vec<FiestaPacket>,
    is_alive: bool,
    interest: Interest,
    id: usize,
}

impl FiestaNetworkClient {
    /// Bytes received and not yet framed.
    pub closed spec fn inbound(&self) -> Seq<u8> {
        self.read_buffer@
    }

    /// Bytes waiting to be sent.
    pub closed spec fn outbound(&self) -> Seq<u8> {
        self.write_buffer@
    }

    /// Decoded packets waiting for dispatch, oldest first.
    pub closed spec fn queue(&self) -> Seq<(nat, Seq<u8>)> {
        self.packet_queue@.map_values(|p: FiestaPacket| p@)
    }

    pub closed spec fn is_live(&self) -> bool {
        self.is_alive
    }

    pub closed spec fn wants(&self) -> Interest {
        self.interest
    }

    pub closed spec fn token(&self) -> usize {
        self.id
    }

    pub closed spec fn inv(&self) -> bool {
        &&& self.read_buffer.inv()
        &&& self.write_buffer.inv()
        &&& self.read_buffer.cap() == BUFFERSIZE
        &&& self.write_buffer.cap() == BUFFERSIZE
        &&& forall|i: int| 0 <= i < self.packet_queue@.len() ==> #[trigger] self.packet_queue@[i].inv()
    }

    /// A live connection with empty buffers that wants every kind of readiness.
    pub fn new(id: usize) -> (r: Self)
        ensures
            r.inv(),
            r.inbound() == Seq::<u8>::empty(),
            r.outbound() == Seq::<u8>::empty(),
            r.queue() == Seq::<(nat, Seq<u8>)>::empty(),
            r.is_live(),
            r.wants() == (Interest { readable: true, writable: true }),
            r.token() == id,
    {
        let r = FiestaNetworkClient {
            read_buffer: Buffer::new(),
            write_buffer: Buffer::new(),
            packet_queue: Vec::new(),
            is_alive: true,
            interest: Interest::all(),
            id,
        };
        proof {
            assert(r.queue() =~= Seq::<(nat, Seq<u8>)>::empty());
        }
        r
    }

    /// The (prefix length, payload length) of the next frame, once its prefix has arrived.
    fn get_next_size(&mut self) -> (r: Option<(usize, usize)>)
        requires
            old(self).inv(),
        ensures
            final(self).inv(),
            final(self).inbound() == old(self).inbound(),
            final(self).outbound() == old(self).outbound(),
            final(self).queue() == old(self).queue(),
            final(self).is_live() == old(self).is_live(),
            final(self).wants() == old(self).wants(),
            final(self).token() == old(self).token(),
            match r {
                Some((p, n)) => frame_layout(old(self).inbound()) == Some((p as nat, n as nat)),
                None => frame_layout(old(self).inbound()) is None,
            },
    {
        let ghost v = self.read_buffer@;
        match self.read_buffer.peek_u8(0) {
            Err(_) => None,
            Ok(small) => {
                proof {
                    reveal_with_fuel(be_value, 2);
                    assert(v.subrange(0, 1).drop_last().len() == 0);
                }
                if small > 0 {
                    Some((1, small as usize))
                } else {
                    match self.read_buffer.peek_u16(1) {
                        Err(_) => None,
                        Ok(big) => {
                            if big > MAX_EXTENDED_LEN {
                                Some((3, 0))
                            } else {
                                Some((3, big as usize))
                            }
                        },
                    }
                }
            },
        }
    }

    /// Whether the inbound bytes start with a whole frame.
    pub fn can_read_next_packet(&mut self) -> (r: bool)
        requires
            old(self).inv(),
        ensures
            final(self).inv(),
            final(self).inbound() == old(self).inbound(),
            final(self).outbound() == old(self).outbound(),
            final(self).queue() == old(self).queue(),
            final(self).is_live() == old(self).is_live(),
            final(self).wants() == old(self).wants(),
            final(self).token() == old(self).token(),
            r == frame_ready(old(self).inbound()),
    {
        match self.get_next_size() {
            None => false,
            Some((p, n)) => {
                proof {
                    self.read_buffer.lemma_bounds();
                }
                let have = self.read_buffer.bytes_remaining();
                have >= p && have - p >= 2 && have - p - 2 >= n
            },
        }
    }

    /// Moves the next whole frame, if there is one, from the inbound bytes to
    /// the packet queue.
    pub fn read_next_packet(&mut self)
        requires
            old(self).inv(),
        ensures
            final(self).inv(),
            frame_ready(old(self).inbound()) ==> {
                &&& final(self).queue() == old(self).queue().push(frame_packet(old(self).inbound()))
                &&& final(self).inbound() == old(self).inbound().skip(
                    frame_len(old(self).inbound()) as int,
                )
            },
            !frame_ready(old(self).inbound()) ==> {
                &&& final(self).queue() == old(self).queue()
                &&& final(self).inbound() == old(self).inbound()
            },
            final(self).outbound() == old(self).outbound(),
            final(self).is_live() == old(self).is_live(),
            final(self).wants() == old(self).wants(),
            final(self).token() == old(self).token(),
    {
        let ghost v = self.read_buffer@;
        let (p, n) = match self.get_next_size() {
            None => return ,
            Some(layout) => layout,
        };
        proof {
            self.read_buffer.lemma_bounds();
        }
        let have = self.read_buffer.bytes_remaining();
        if !(have >= p && have - p >= 2 && have - p - 2 >= n) {
            return ;
        }
        let mut packet = FiestaPacket::new(0, n);
        self.read_buffer.advance_read(p);
        let header = match self.read_buffer.read_u16() {
            Ok(h) => h,
            Err(_) => return ,
        };
        let body = match self.read_buffer.read_bytes(n) {
            Ok(b) => b,
            Err(_) => return ,
        };
        packet.header = header;
        packet.data.append(body.as_slice());
        proof {
            assert(v.skip(p as int).subrange(0, 2) =~= v.subrange(p as int, p + 2));
            assert(v.skip(p as int).skip(2).subrange(0, n as int) =~= v.subrange(
                p + 2,
                p + 2 + n,
            ));
            assert(v.skip(p as int).skip(2).skip(n as int) =~= v.skip(p + 2 + n));
            assert(Seq::<u8>::empty() + body@ =~= body@);
        }
        self.packet_queue.push(packet);
        proof {
            assert(self.queue() =~= old(self).queue().push(frame_packet(v)));
        }
    }

    /// Takes the outcome of a socket read. Bytes are appended to the inbound
    /// bytes and every whole frame is moved to the packet queue; an empty read or
    /// a failed one marks the connection dead. Returns whether the connection is
    /// to be shut down and retired.
    pub fn readable(&mut self, outcome: ReadOutcome) -> (disconnect: bool)
        requires
            old(self).inv(),
        ensures
            final(self).inv(),
            final(self).outbound() == old(self).outbound(),
            final(self).wants() == old(self).wants(),
            final(self).token() == old(self).token(),
            !old(self).is_live() ==> {
                &&& disconnect
                &&& !final(self).is_live()
                &&& final(self).inbound() == old(self).inbound()
                &&& final(self).queue() == old(self).queue()
            },
            old(self).is_live() ==> match outcome {
                ReadOutcome::Received(b) => if b@.len() > 0 {
                    let w = appended(old(self).inbound(), b@, BUFFERSIZE as nat);
                    &&& !disconnect
                    &&& final(self).is_live()
                    &&& final(self).queue() == old(self).queue() + frames(w)
                    &&& final(self).inbound() == unframed(w)
                } else {
                    &&& disconnect
                    &&& !final(self).is_live()
                    &&& final(self).inbound() == old(self).inbound()
                    &&& final(self).queue() == old(self).queue()
                },
                ReadOutcome::WouldBlock => {
                    &&& !disconnect
                    &&& final(self).is_live()
                    &&& final(self).inbound() == old(self).inbound()
                    &&& final(self).queue() == old(self).queue()
                },
                ReadOutcome::Failed => {
                    &&& disconnect
                    &&& !final(self).is_live()
                    &&& final(self).inbound() == old(self).inbound()
                    &&& final(self).queue() == old(self).queue()
                },
            },
    {
        if !self.is_alive {
            return true;
        }
        match outcome {
            ReadOutcome::Received(bytes) => {
                if bytes.len() == 0 {
                    self.set_alive(false);
                    true
                } else {
                    self.read_buffer.append(bytes.as_slice());
                    self.read_all_packets();
                    false
                }
            },
            ReadOutcome::WouldBlock => false,
            ReadOutcome::Failed => {
                self.set_alive(false);
                true
            },
        }
    }

    /// The outbound bytes to offer the socket next, at most a write window's
    /// worth. With nothing to send, writable readiness is dropped from the
    /// interest and nothing is offered; a dead connection is offered nothing.
    pub fn writeable(&mut self) -> (r: Option<Vec<u8>>)
        requires
            old(self).inv(),
        ensures
            final(self).inv(),
            final(self).inbound() == old(self).inbound(),
            final(self).outbound() == old(self).outbound(),
            final(self).queue() == old(self).queue(),
            final(self).is_live() == old(self).is_live(),
            final(self).token() == old(self).token(),
            !old(self).is_live() ==> r is None && final(self).wants() == old(self).wants(),
            old(self).is_live() && old(self).outbound().len() == 0 ==> {
                &&& r is None
                &&& final(self).wants() == (Interest {
                    readable: old(self).wants().readable,
                    writable: false,
                })
            },
            old(self).is_live() && old(self).outbound().len() > 0 ==> {
                &&& r matches Some(chunk) && chunk@ == old(self).outbound().take(
                    vstd::math::min(WRITE_WINDOW as int, old(self).outbound().len() as int),
                )
                &&& final(self).wants() == old(self).wants()
            },
    {
        if !self.is_alive {
            return None;
        }
        let chunk = self.write_buffer.peek_max(0, WRITE_WINDOW);
        if chunk.len() == 0 {
            let wants = Interest { readable: self.interest.readable, writable: false };
            self.set_interest(wants);
            None
        } else {
            Some(chunk)
        }
    }

    /// Takes the outcome of a socket write of bytes that `writeable` offered.
    /// Written bytes leave the outbound bytes; a write of nothing drops writable
    /// readiness from the interest; a failed write marks the connection dead.
    /// Returns whether the connection is to be shut down and retired.
    pub fn written(&mut self, outcome: WriteOutcome) -> (disconnect: bool)
        requires
            old(self).inv(),
        ensures
            final(self).inv(),
            final(self).inbound() == old(self).inbound(),
            final(self).queue() == old(self).queue(),
            final(self).token() == old(self).token(),
            !old(self).is_live() ==> {
                &&& disconnect
                &&& !final(self).is_live()
                &&& final(self).outbound() == old(self).outbound()
                &&& final(self).wants() == old(self).wants()
            },
            old(self).is_live() ==> match outcome {
                WriteOutcome::Sent(n) => {
                    &&& !disconnect
                    &&& final(self).is_live()
                    &&& final(self).outbound() == old(self).outbound().skip(
                        vstd::math::min(n as int, old(self).outbound().len() as int),
                    )
                    &&& final(self).wants() == if n == 0 {
                        Interest { readable: old(self).wants().readable, writable: false }
                    } else {
                        old(self).wants()
                    }
                },
                WriteOutcome::WouldBlock => {
                    &&& !disconnect
                    &&& final(self).is_live()
                    &&& final(self).outbound() == old(self).outbound()
                    &&& final(self).wants() == old(self).wants()
                },
                WriteOutcome::Failed => {
                    &&& disconnect
                    &&& !final(self).is_live()
                    &&& final(self).outbound() == old(self).outbound()
                    &&& final(self).wants() == old(self).wants()
                },
            },
    {
        if !self.is_alive {
            return true;
        }
        match outcome {
            WriteOutcome::Sent(n) => {
                if n == 0 {
                    let wants = Interest { readable: self.interest.readable, writable: false };
                    self.set_interest(wants);
                } else {
                    proof {
                        self.write_buffer.lemma_bounds();
                    }
                    let have = self.write_buffer.bytes_remaining();
                    let done = if n < have {
                        n
                    } else {
                        have
                    };
                    self.write_buffer.advance_read(done);
                }
                false
            },
            WriteOutcome::WouldBlock => false,
            WriteOutcome::Failed => {
                self.set_alive(false);
                true
            },
        }
    }

    /// Queues `buffer` for sending and makes sure that writable readiness is in
    /// the interest. Returns how many queued bytes gave way for lack of room.
    pub fn append_send(&mut self, buffer: &[u8]) -> (dropped: usize)
        requires
            old(self).inv(),
        ensures
            final(self).inv(),
            final(self).outbound() == appended(old(self).outbound(), buffer@, BUFFERSIZE as nat),
            dropped == discarded(old(self).outbound(), buffer@, BUFFERSIZE as nat),
            final(self).wants() == (Interest { readable: old(self).wants().readable, writable: true }),
            final(self).inbound() == old(self).inbound(),
            final(self).queue() == old(self).queue(),
            final(self).is_live() == old(self).is_live(),
            final(self).token() == old(self).token(),
    {
        let dropped = self.write_buffer.append(buffer);
        if !self.interest.writable {
            let wants = Interest { readable: self.interest.readable, writable: true };
            self.set_interest(wants);
        }
        dropped
    }

    /// Hands out the queued packets, oldest first, and leaves the queue empty.
    pub fn take_packets(&mut self) -> (r: Vec<FiestaPacket>)
        requires
            old(self).inv(),
        ensures
            final(self).inv(),
            r@.map_values(|p: FiestaPacket| p@) == old(self).queue(),
            forall|i: int| 0 <= i < r@.len() ==> #[trigger] r@[i].inv(),
            final(self).queue() == Seq::<(nat, Seq<u8>)>::empty(),
            final(self).inbound() == old(self).inbound(),
            final(self).outbound() == old(self).outbound(),
            final(self).is_live() == old(self).is_live(),
            final(self).wants() == old(self).wants(),
            final(self).token() == old(self).token(),
    {
        let mut r: Vec<FiestaPacket> = Vec::new();
        r.append(&mut self.packet_queue);
        proof {
            assert(self.queue() =~= Seq::<(nat, Seq<u8>)>::empty());
            assert(r@ =~= old(self).packet_queue@);
        }
        r
    }

    /// How many received bytes wait to be framed.
    pub fn inbound_len(&self) -> (r: usize)
        requires
            self.inv(),
        ensures
            r == self.inbound().len(),
    {
        self.read_buffer.bytes_remaining()
    }

    /// How many bytes wait to be sent.
    pub fn outbound_len(&self) -> (r: usize)
        requires
            self.inv(),
        ensures
            r == self.outbound().len(),
    {
        self.write_buffer.bytes_remaining()
    }

    /// How many decoded packets wait for dispatch.
    pub fn queued_packets(&self) -> (r: usize)
        ensures
            r == self.queue().len(),
    {
        self.packet_queue.len()
    }

    pub fn alive(&self) -> (r: bool)
        ensures
            r == self.is_live(),
    {
        self.is_alive
    }

    pub fn id(&self) -> (r: usize)
        ensures
            r == self.token(),
    {
        self.id
    }

    fn set_alive(&mut self, value: bool)
        ensures
            *final(self) == (FiestaNetworkClient { is_alive: value, ..*old(self) }),
    {
        self.is_alive = value;
    }

    pub fn interest(&self) -> (r: Interest)
        ensures
            r == self.wants(),
    {
        self.interest
    }

    fn set_interest(&mut self, interest: Interest)
        ensures
            *final(self) == (FiestaNetworkClient { interest, ..*old(self) }),
    {
        self.interest = interest;
    }

    /// Moves every whole frame at the front of the inbound bytes to the packet queue.
    fn read_all_packets(&mut self)
        requires
            old(self).inv(),
        ensures
            final(self).inv(),
            final(self).queue() == old(self).queue() + frames(old(self).inbound()),
            final(self).inbound() == unframed(old(self).inbound()),
            final(self).outbound() == old(self).outbound(),
            final(self).is_live() == old(self).is_live(),
            final(self).wants() == old(self).wants(),
            final(self).token() == old(self).token(),
    {
        let ghost v0 = self.inbound();
        let ghost q0 = self.queue();
        while self.can_read_next_packet()
            invariant
                self.inv(),
                self.queue() + frames(self.inbound()) == q0 + frames(v0),
                unframed(self.inbound()) == unframed(v0),
                self.outbound() == old(self).outbound(),
                self.is_live() == old(self).is_live(),
                self.wants() == old(self).wants(),
                self.token() == old(self).token(),
            decreases self.inbound().len(),
        {
            let ghost v = self.inbound();
            let ghost q = self.queue();
            proof {
                lemma_frame_len_positive(v);
            }
            self.read_next_packet();
            proof {
                assert(q.push(frame_packet(v)) + frames(self.inbound()) =~= q + frames(v));
            }
        }
        proof {
            assert(frames(self.inbound()) =~= Seq::<(nat, Seq<u8>)>::empty());
            assert(self.queue() + frames(self.inbound()) =~= self.queue());
        }
    }
}

/// A frame takes at least its one prefix byte and two header bytes.
pub proof fn lemma_frame_len_positive(v: Seq<u8>)
    requires
        frame_layout(v) is Some,
    ensures
        frame_len(v) >= 3,
{
}

/// Two bytes spell `x / 256` and `x % 256` of the number `x` they encode.
proof fn lemma_be_value_pair(x: nat)
    requires
        x < 0x1_0000,
    ensures
        be_value(seq![(x / 256) as u8, (x % 256) as u8]) == x,
{
    let s = seq![(x / 256) as u8, (x % 256) as u8];
    reveal_with_fuel(be_value, 3);
    assert(s.drop_last().drop_last().len() == 0);
    assert(s.drop_last() =~= seq![(x / 256) as u8]);
}

/// A frame fed in part is not yet a frame: no prefix of the bytes of one frame
/// that lacks its last byte yields a packet, and it stays as it is, waiting.
pub proof fn lemma_partial_frame(header: u16, payload: Seq<u8>, k: nat)
    requires
        payload.len() <= MAX_EXTENDED_LEN,
        k < encode_frame(header, payload).len(),
    ensures
        !frame_ready(encode_frame(header, payload).take(k as int)),
        frames(encode_frame(header, payload).take(k as int)) == Seq::<(nat, Seq<u8>)>::empty(),
        unframed(encode_frame(header, payload).take(k as int)) == encode_frame(header, payload).take(
            k as int,
        ),
{
    let f = encode_frame(header, payload);
    let v = f.take(k as int);
    let n = payload.len();
    if k >= 3 && !(1 <= n <= 255) {
        assert(v.subrange(1, 3) =~= seq![(n / 256) as u8, (n % 256) as u8]);
        lemma_be_value_pair(n);
    }
}

/// The bytes of one whole frame yield exactly its packet and leave nothing behind.
pub proof fn lemma_whole_frame(header: u16, payload: Seq<u8>)
    requires
        payload.len() <= MAX_EXTENDED_LEN,
    ensures
        frame_ready(encode_frame(header, payload)),
        frames(encode_frame(header, payload)) == seq![(header as nat, payload)],
        unframed(encode_frame(header, payload)) == Seq::<u8>::empty(),
{
    let f = encode_frame(header, payload);
    let n = payload.len();
    let p: int = if 1 <= n <= 255 { 1 } else { 3 };
    assert(f.len() == p + 2 + n);
    if !(1 <= n <= 255) {
        assert(f.subrange(1, 3) =~= seq![(n / 256) as u8, (n % 256) as u8]);
        lemma_be_value_pair(n);
    }
    assert(f.subrange(p, p + 2) =~= seq![(header / 256) as u8, (header % 256) as u8]);
    lemma_be_value_pair(header as nat);
    assert(f.subrange(p + 2, f.len() as int) =~= payload);
    assert(frame_len(f) == f.len());
    assert(frame_packet(f) == (header as nat, payload));
    let rest = f.skip(frame_len(f) as int);
    assert(rest.len() == 0);
    assert(!frame_ready(rest));
    reveal_with_fuel(frames, 2);
    reveal_with_fuel(unframed, 2);
    assert(rest =~= Seq::<u8>::empty());
    assert(frames(f) =~= seq![(header as nat, payload)]);
}

} // verus!
