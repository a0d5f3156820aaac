//! Length-prefixed framing: a frame is the payload's length as a 4-byte
//! little-endian unsigned integer, followed by the payload.

use vstd::prelude::*;

verus! {

/// Ceiling on a declared payload length and on the buffered byte count.
pub const MAX_BUFFER_SIZE: usize = 100_000;

/// Initial capacity of a decoder's buffer.
pub const BUFFER_CAPACITY: usize = 16384;

/// The four little-endian bytes of `n`.
pub open spec fn le_bytes(n: u32) -> Seq<u8> {
    seq![(n & 0xff) as u8, ((n >> 8u32) & 0xff) as u8, ((n >> 16u32) & 0xff) as u8, ((n >> 24u32) & 0xff) as u8]
}

/// The unsigned integer whose little-endian bytes are `b0 b1 b2 b3`.
pub open spec fn le_u32(b0: u8, b1: u8, b2: u8, b3: u8) -> u32 {
    (b0 as u32) | ((b1 as u32) << 8u32) | ((b2 as u32) << 16u32) | ((b3 as u32) << 24u32)
}

/// The length declared by the first four bytes of `s`.
pub open spec fn declared_len(s: Seq<u8>) -> int
    recommends
        s.len() >= 4,
{
    le_u32(s[0], s[1], s[2], s[3]) as int
}

/// The frame that carries `payload`.
pub open spec fn frame_bytes(payload: Seq<u8>) -> Seq<u8>
    recommends
        payload.len() <= u32::MAX,
{
    le_bytes(payload.len() as u32) + payload
}

/// Whether `s` starts with a whole frame whose length is within the ceiling.
pub open spec fn has_frame(s: Seq<u8>) -> bool {
    4 <= s.len() && declared_len(s) <= MAX_BUFFER_SIZE && 4 + declared_len(s) <= s.len()
}

/// One decoding step on the bytes not yet consumed: the payload it yields,
/// if any, and the bytes that remain. A declared length over the ceiling
/// discards everything.
pub open spec fn decode_step(s: Seq<u8>) -> (Option<Seq<u8>>, Seq<u8>) {
    if s.len() < 4 {
        (None, s)
    } else if declared_len(s) > MAX_BUFFER_SIZE {
        (None, Seq::empty())
    } else if s.len() < 4 + declared_len(s) {
        (None, s)
    } else {
        (Some(s.subrange(4, 4 + declared_len(s))), s.subrange(4 + declared_len(s), s.len() as int))
    }
}

/// Decoding repeated until it yields nothing: the payloads in stream order,
/// and the bytes left over.
pub open spec fn drain(s: Seq<u8>) -> (Seq<Seq<u8>>, Seq<u8>)
    decreases s.len(),
{
    if has_frame(s) {
        let rest = drain(s.subrange(4 + declared_len(s), s.len() as int));
        (seq![s.subrange(4, 4 + declared_len(s))] + rest.0, rest.1)
    } else {
        (Seq::empty(), decode_step(s).1)
    }
}

pub proof fn lemma_le_round_trip(n: u32)
    ensures
        le_u32(le_bytes(n)[0], le_bytes(n)[1], le_bytes(n)[2], le_bytes(n)[3]) == n,
{
    let b0 = (n & 0xff) as u8;
    let b1 = ((n >> 8u32) & 0xff) as u8;
    let b2 = ((n >> 16u32) & 0xff) as u8;
    let b3 = ((n >> 24u32) & 0xff) as u8;
    assert((b0 as u32) | ((b1 as u32) << 8u32) | ((b2 as u32) << 16u32) | ((b3 as u32) << 24u32) == n)
        by (bit_vector)
        requires
            b0 == (n & 0xff) as u8,
            b1 == ((n >> 8u32) & 0xff) as u8,
            b2 == ((n >> 16u32) & 0xff) as u8,
            b3 == ((n >> 24u32) & 0xff) as u8,
    ;
}

pub proof fn lemma_bytes_round_trip(b0: u8, b1: u8, b2: u8, b3: u8)
    ensures
        le_bytes(le_u32(b0, b1, b2, b3)) == seq![b0, b1, b2, b3],
{
    let n = le_u32(b0, b1, b2, b3);
    assert((n & 0xff) as u8 == b0 && ((n >> 8u32) & 0xff) as u8 == b1 && ((n >> 16u32) & 0xff) as u8
        == b2 && ((n >> 24u32) & 0xff) as u8 == b3) by (bit_vector)
        requires
            n == (b0 as u32) | ((b1 as u32) << 8u32) | ((b2 as u32) << 16u32) | ((b3 as u32) << 24u32),
    ;
    assert(le_bytes(n) =~= seq![b0, b1, b2, b3]);
}

/// The chunks joined in delivery order.
pub open spec fn concat(chunks: Seq<Seq<u8>>) -> Seq<u8>
    decreases chunks.len(),
{
    if chunks.len() == 0 {
        Seq::empty()
    } else {
        concat(chunks.drop_last()) + chunks.last()
    }
}

/// What a decoder holding the unconsumed bytes `s` hands out when the chunks
/// are received one after another: the payloads in order, and the bytes left.
pub open spec fn feed(s: Seq<u8>, chunks: Seq<Seq<u8>>) -> (Seq<Seq<u8>>, Seq<u8>)
    decreases chunks.len(),
{
    if chunks.len() == 0 {
        (Seq::empty(), s)
    } else {
        let before = feed(s, chunks.drop_last());
        let after = drain(before.1 + chunks.last());
        (before.0 + after.0, after.1)
    }
}

proof fn lemma_frame_header(p: Seq<u8>, k: int)
    requires
        p.len() <= MAX_BUFFER_SIZE,
        4 <= k <= frame_bytes(p).len(),
    ensures
        declared_len(frame_bytes(p).take(k)) == p.len(),
{
    lemma_le_round_trip(p.len() as u32);
    let f = frame_bytes(p);
    assert(f.take(k)[0] == f[0] && f.take(k)[1] == f[1] && f.take(k)[2] == f[2] && f.take(k)[3]
        == f[3]);
}

proof fn lemma_whole_frame(p: Seq<u8>)
    requires
        p.len() <= MAX_BUFFER_SIZE,
    ensures
        drain(frame_bytes(p)) == (seq![p], Seq::<u8>::empty()),
{
    let f = frame_bytes(p);
    lemma_frame_header(p, f.len() as int);
    assert(f.take(f.len() as int) =~= f);
    assert(has_frame(f));
    assert(f.subrange(4, 4 + declared_len(f)) =~= p);
    let rest = f.subrange(4 + declared_len(f), f.len() as int);
    assert(rest =~= Seq::<u8>::empty());
    assert(!has_frame(rest));
    assert(drain(rest).0 =~= Seq::<Seq<u8>>::empty());
    assert(seq![p] + drain(rest).0 =~= seq![p]);
}

/// A decoder that has received only part of a frame hands out nothing and
/// keeps every byte, however often it is asked; once the rest arrives it
/// hands out the payload.
pub proof fn lemma_partial_frame(p: Seq<u8>, k: int)
    requires
        p.len() <= MAX_BUFFER_SIZE,
        0 <= k < frame_bytes(p).len(),
    ensures
        decode_step(frame_bytes(p).take(k)) == (None::<Seq<u8>>, frame_bytes(p).take(k)),
        drain(frame_bytes(p).take(k)) == (Seq::<Seq<u8>>::empty(), frame_bytes(p).take(k)),
        drain(frame_bytes(p).take(k) + frame_bytes(p).skip(k)) == (seq![p], Seq::<u8>::empty()),
{
    let f = frame_bytes(p);
    let t = f.take(k);
    if k >= 4 {
        lemma_frame_header(p, k);
    }
    assert(!has_frame(t));
    assert(drain(t).0 =~= Seq::<Seq<u8>>::empty());
    assert(t + f.skip(k) =~= f);
    lemma_whole_frame(p);
}

proof fn lemma_chunks_of_frame(p: Seq<u8>, chunks: Seq<Seq<u8>>)
    requires
        p.len() <= MAX_BUFFER_SIZE,
        concat(chunks).len() <= frame_bytes(p).len(),
        concat(chunks) == frame_bytes(p).take(concat(chunks).len() as int),
    ensures
        feed(Seq::empty(), chunks) == if concat(chunks).len() < frame_bytes(p).len() {
            (Seq::<Seq<u8>>::empty(), concat(chunks))
        } else {
            (seq![p], Seq::<u8>::empty())
        },
    decreases chunks.len(),
{
    let f = frame_bytes(p);
    if chunks.len() == 0 {
        assert(concat(chunks) =~= Seq::<u8>::empty());
    } else {
        let init = chunks.drop_last();
        let c = concat(chunks);
        let ci = concat(init);
        assert(c == ci + chunks.last());
        assert(ci =~= c.take(ci.len() as int));
        assert(ci =~= f.take(ci.len() as int));
        lemma_chunks_of_frame(p, init);
        if ci.len() == f.len() {
            assert(chunks.last() =~= Seq::<u8>::empty());
            assert(drain(Seq::<u8>::empty()).0 =~= Seq::<Seq<u8>>::empty());
            assert(Seq::<u8>::empty() + chunks.last() =~= Seq::<u8>::empty());
            assert(seq![p] + Seq::<Seq<u8>>::empty() =~= seq![p]);
        } else {
            if c.len() < f.len() {
                lemma_partial_frame(p, c.len() as int);
            } else {
                assert(c =~= f);
                lemma_whole_frame(p);
            }
            assert(Seq::<Seq<u8>>::empty() + drain(c).0 =~= drain(c).0);
        }
    }
}

/// Round trip of the framing: the frame of a payload within the ceiling,
/// received in any split into chunks (single bytes or empty chunks
/// included), yields exactly that payload and leaves nothing behind.
pub proof fn lemma_framing_round_trip(p: Seq<u8>, chunks: Seq<Seq<u8>>)
    requires
        p.len() <= MAX_BUFFER_SIZE,
        concat(chunks) == frame_bytes(p),
    ensures
        feed(Seq::empty(), chunks) == (seq![p], Seq::<u8>::empty()),
{
    assert(frame_bytes(p).take(frame_bytes(p).len() as int) =~= frame_bytes(p));
    lemma_chunks_of_frame(p, chunks);
}

/// A declared length over the ceiling discards all buffered bytes and yields
/// nothing; a whole frame received afterwards decodes normally.
pub proof fn lemma_oversized_resync(s: Seq<u8>, p: Seq<u8>)
    requires
        s.len() >= 4,
        declared_len(s) > MAX_BUFFER_SIZE,
        p.len() <= MAX_BUFFER_SIZE,
    ensures
        drain(s) == (Seq::<Seq<u8>>::empty(), Seq::<u8>::empty()),
        drain(drain(s).1 + frame_bytes(p)) == (seq![p], Seq::<u8>::empty()),
{
    assert(drain(s).0 =~= Seq::<Seq<u8>>::empty());
    assert(Seq::<u8>::empty() + frame_bytes(p) =~= frame_bytes(p));
    lemma_whole_frame(p);
}

/// Why a payload cannot be framed.
#[derive(Debug, Clone, Copy, PartialEq, Eq, Structural)]
pub enum CodecError {
    /// The payload's length does not fit the 4-byte length field.
    PayloadTooLong,
}

/// The payloads of a sequence of frames, as byte sequences.
pub open spec fn payloads_view(v: Seq<Vec<u8>>) -> Seq<Seq<u8>> {
    v.map_values(|p: Vec<u8>| p@)
}

/// Frames `payload` for the wire: its length as four little-endian bytes,
/// then the payload itself.
pub fn frame_message(payload: &[u8]) -> (r: Result<Vec<u8>, CodecError>)
    ensures
        match r {
            Ok(f) => payload@.len() <= u32::MAX && f@ == frame_bytes(payload@),
            Err(e) => payload@.len() > u32::MAX && e == CodecError::PayloadTooLong,
        },
{
    if payload.len() > u32::MAX as usize {
        return Err(CodecError::PayloadTooLong);
    }
    let n = payload.len() as u32;
    let mut framed: Vec<u8> = Vec::new();
    framed.push((n & 0xff) as u8);
    framed.push(((n >> 8u32) & 0xff) as u8);
    framed.push(((n >> 16u32) & 0xff) as u8);
    framed.push(((n >> 24u32) & 0xff) as u8);
    assert(framed@ =~= le_bytes(n));
    let mut i: usize = 0;
    while i < payload.len()
        invariant
            i <= payload@.len(),
            framed@ =~= le_bytes(n) + payload@.subrange(0, i as int),
        decreases payload@.len() - i,
    {
        framed.push(payload[i]);
        i = i + 1;
    }
    assert(payload@.subrange(0, payload@.len() as int) =~= payload@);
    Ok(framed)
}

/// Incremental decoder for one direction of one connection.
pub struct MessageHandler {
    buffer: Vec<u8>,
    current_msg_len: Option<usize>,
}

impl MessageHandler {
    /// The bytes received and not yet consumed, including the length field of
    /// a frame whose payload is still awaited.
    pub closed spec fn stream(&self) -> Seq<u8> {
        match self.current_msg_len {
            None => self.buffer@,
            Some(n) => le_bytes(n as u32) + self.buffer@,
        }
    }

    /// The bytes held in the buffer proper.
    pub closed spec fn buffered(&self) -> Seq<u8> {
        self.buffer@
    }

    pub closed spec fn wf(&self) -> bool {
        match self.current_msg_len {
            None => true,
            Some(n) => n <= MAX_BUFFER_SIZE,
        }
    }

    pub fn new() -> (r: Self)
        ensures
            r.wf(),
            r.stream() == Seq::<u8>::empty(),
    {
        MessageHandler { buffer: Vec::with_capacity(BUFFER_CAPACITY), current_msg_len: None }
    }

    /// Appends received bytes.
    pub fn extend_buffer(&mut self, data: &[u8])
        requires
            old(self).wf(),
        ensures
            final(self).wf(),
            final(self).stream() == old(self).stream() + data@,
    {
        self.buffer.extend_from_slice(data);
        proof {
            assert(self.buffer@ =~= old(self).buffer@ + data@);
            if let Some(n) = self.current_msg_len {
                assert(self.stream() =~= old(self).stream() + data@);
            }
        }
    }

    /// Clears the buffer, and any frame in progress, once it holds more than
    /// the ceiling. Returns whether it did.
    pub fn check_buffer_size(&mut self) -> (cleared: bool)
        requires
            old(self).wf(),
        ensures
            final(self).wf(),
            cleared == (old(self).buffered().len() > MAX_BUFFER_SIZE),
            cleared ==> final(self).stream() == Seq::<u8>::empty(),
            !cleared ==> *final(self) == *old(self),
    {
        if self.buffer.len() > MAX_BUFFER_SIZE {
            self.buffer.clear();
            self.current_msg_len = None;
            return true;
        }
        false
    }

    /// Takes the payload of the next frame off the stream once all of it has
    /// arrived. A declared length over the ceiling discards the whole buffer.
    pub fn next_frame(&mut self) -> (r: Option<Vec<u8>>)
        requires
            old(self).wf(),
        ensures
            final(self).wf(),
            decode_step(old(self).stream()) == (
            match r {
                Some(p) => Some(p@),
                None => None::<Seq<u8>>,
            },
            final(self).stream()),
            r is None ==> final(self).buffered().len() <= MAX_BUFFER_SIZE,
    {
        if self.current_msg_len.is_none() {
            if self.buffer.len() < 4 {
                return None;
            }
            let b0 = self.buffer[0];
            let b1 = self.buffer[1];
            let b2 = self.buffer[2];
            let b3 = self.buffer[3];
            let n: u32 = (b0 as u32) | ((b1 as u32) << 8u32) | ((b2 as u32) << 16u32) | ((b3 as u32)
                << 24u32);
            proof {
                lemma_bytes_round_trip(b0, b1, b2, b3);
                assert(n == le_u32(b0, b1, b2, b3));
                assert(declared_len(self.buffer@) == n as int);
            }
            if n as usize > MAX_BUFFER_SIZE {
                self.buffer.clear();
                self.current_msg_len = None;
                return None;
            }
            let rest = self.buffer.split_off(4);
            self.buffer = rest;
            self.current_msg_len = Some(n as usize);
            proof {
                assert(old(self).buffer@.subrange(0, 4) =~= seq![b0, b1, b2, b3]);
                assert(self.stream() =~= old(self).stream());
            }
        }
        let ghost s = self.stream();
        assert(s == old(self).stream());
        match self.current_msg_len {
            Some(msg_len) => {
                proof {
                    lemma_le_round_trip(msg_len as u32);
                    assert(declared_len(s) == msg_len as int);
                }
                if self.buffer.len() < msg_len {
                    return None;
                }
                let mut payload = self.buffer.split_off(msg_len);
                std::mem::swap(&mut self.buffer, &mut payload);
                self.current_msg_len = None;
                proof {
                    assert(payload@ =~= s.subrange(4, 4 + declared_len(s)));
                    assert(self.buffer@ =~= s.subrange(4 + declared_len(s), s.len() as int));
                }
                Some(payload)
            },
            None => None,
        }
    }

    /// Appends received bytes, then takes off every payload that is now
    /// complete, in stream order, and finally applies the size guard.
    pub fn receive(&mut self, data: &[u8]) -> (frames: Vec<Vec<u8>>)
        requires
            old(self).wf(),
        ensures
            final(self).wf(),
            (payloads_view(frames@), final(self).stream()) == drain(old(self).stream() + data@),
    {
        self.extend_buffer(data);
        let ghost whole = self.stream();
        let mut frames: Vec<Vec<u8>> = Vec::new();
        loop
            invariant
                self.wf(),
                whole == old(self).stream() + data@,
                drain(whole) == (payloads_view(frames@) + drain(self.stream()).0, drain(
                    self.stream(),
                ).1),
            decreases self.stream().len(),
        {
            let ghost s = self.stream();
            match self.next_frame() {
                Some(p) => {
                    proof {
                        assert(has_frame(s));
                        assert(payloads_view(frames@.push(p)) =~= payloads_view(frames@).push(p@));
                        assert(payloads_view(frames@) + drain(s).0 =~= payloads_view(
                            frames@.push(p),
                        ) + drain(self.stream()).0);
                    }
                    frames.push(p);
                },
                None => {
                    proof {
                        assert(!has_frame(s));
                        assert(drain(s).0 =~= Seq::<Seq<u8>>::empty());
                        assert(payloads_view(frames@) + drain(s).0 =~= payloads_view(frames@));
                    }
                    let ghost left = self.stream();
                    assert(drain(s).1 == left);
                    let cleared = self.check_buffer_size();
                    assert(!cleared);
                    assert(self.stream() == left);
                    return frames;
                },
            }
        }
    }
}

} // verus!
