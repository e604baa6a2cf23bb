//! Length-prefixed framing: every message travels as a four byte big-endian
//! length followed by exactly that many payload bytes.

use std::sync::Arc;
use vstd::prelude::*;
use vstd::slice::slice_subrange;

verus! {

/// Number of bytes in the length prefix of a frame.
pub const LENGTH_PREFIX_SIZE: usize = 4;

/// The payload length that the first four bytes of `stream` declare.
pub open spec fn prefix_value(stream: Seq<u8>) -> int
    recommends
        stream.len() >= 4,
{
    (stream[0] as int) * 0x100_0000 + (stream[1] as int) * 0x1_0000 + (stream[2] as int) * 0x100
        + (stream[3] as int)
}

/// The four prefix bytes that declare a payload of `len` bytes.
pub open spec fn prefix_of(len: nat) -> Seq<u8>
    recommends
        len <= u32::MAX,
{
    let n = len as int;
    seq![
        (n / 0x100_0000) as u8,
        (n / 0x1_0000 % 0x100) as u8,
        (n / 0x100 % 0x100) as u8,
        (n % 0x100) as u8,
    ]
}

/// One message on the wire.
pub open spec fn frame(payload: Seq<u8>) -> Seq<u8> {
    prefix_of(payload.len()) + payload
}

/// A sequence of messages on the wire, first message first.
pub open spec fn encode(payloads: Seq<Seq<u8>>) -> Seq<u8>
    decreases payloads.len(),
{
    if payloads.len() == 0 {
        Seq::empty()
    } else {
        frame(payloads.first()) + encode(payloads.drop_first())
    }
}

/// Whether `stream` starts with a complete frame.
pub open spec fn has_frame(stream: Seq<u8>) -> bool {
    stream.len() >= 4 && stream.len() >= 4 + prefix_value(stream)
}

/// What a byte stream decodes to: the complete messages it holds, in order,
/// and the bytes of the incomplete frame that follows them.
#[verifier::ext_equal]
pub struct Decoded {
    pub messages: Seq<Seq<u8>>,
    pub rest: Seq<u8>,
}

/// Splits `stream` into its complete frames and the remainder.
pub open spec fn decode(stream: Seq<u8>) -> Decoded
    decreases stream.len(),
{
    if has_frame(stream) {
        let n = prefix_value(stream);
        let tail = decode(stream.skip(4 + n));
        Decoded { messages: seq![stream.subrange(4, 4 + n)] + tail.messages, rest: tail.rest }
    } else {
        Decoded { messages: Seq::empty(), rest: stream }
    }
}

/// Decoding `first`, then decoding what it left over followed by `second`.
pub open spec fn decode_then(first: Seq<u8>, second: Seq<u8>) -> Decoded {
    let head = decode(first);
    let tail = decode(head.rest + second);
    Decoded { messages: head.messages + tail.messages, rest: tail.rest }
}

/// The views of a list of byte buffers.
pub open spec fn buffers(list: Seq<Vec<u8>>) -> Seq<Seq<u8>> {
    Seq::new(list.len(), |i: int| list[i]@)
}

/// The views of a list of shared byte buffers.
pub open spec fn shared(list: Seq<Arc<Vec<u8>>>) -> Seq<Seq<u8>> {
    Seq::new(list.len(), |i: int| list[i]@)
}

/// A stream may be decoded in two parts: the messages of the first part,
/// then those of its remainder followed by the second part.
pub proof fn lemma_decode_split(first: Seq<u8>, second: Seq<u8>)
    ensures
        decode(first + second) == decode_then(first, second),
    decreases first.len(),
{
    let whole = first + second;
    if has_frame(first) {
        let n = prefix_value(first);
        assert(prefix_value(whole) == n);
        assert(has_frame(whole));
        assert(whole.skip(4 + n) =~= first.skip(4 + n) + second);
        assert(whole.subrange(4, 4 + n) =~= first.subrange(4, 4 + n));
        lemma_decode_split(first.skip(4 + n), second);
        let head = decode(first.skip(4 + n));
        let tail = decode(head.rest + second);
        assert(seq![first.subrange(4, 4 + n)] + (head.messages + tail.messages) =~= (seq![
            first.subrange(4, 4 + n),
        ] + head.messages) + tail.messages);
    } else {
        assert(Seq::<Seq<u8>>::empty() + decode(whole).messages =~= decode(whole).messages);
    }
}

/// What remains after decoding holds no complete frame.
pub proof fn lemma_decode_rest(stream: Seq<u8>)
    ensures
        !has_frame(decode(stream).rest),
    decreases stream.len(),
{
    if has_frame(stream) {
        lemma_decode_rest(stream.skip(4 + prefix_value(stream)));
    }
}

/// The prefix written for a length declares that length.
pub proof fn lemma_prefix_round_trip(len: nat)
    requires
        len <= u32::MAX,
    ensures
        prefix_of(len).len() == 4,
        prefix_value(prefix_of(len)) == len,
{
    let p = prefix_of(len);
    let n = len as int;
    assert(n / 0x100_0000 < 0x100);
    assert(p[0] == n / 0x100_0000);
    assert(p[1] == n / 0x1_0000 % 0x100);
    assert(p[2] == n / 0x100 % 0x100);
    assert(p[3] == n % 0x100);
}

/// Decoding the wire form of a list of messages gives the list back.
pub proof fn lemma_decode_encode(payloads: Seq<Seq<u8>>)
    requires
        forall|i: int| 0 <= i < payloads.len() ==> (#[trigger] payloads[i]).len() <= u32::MAX,
    ensures
        decode(encode(payloads)) == (Decoded { messages: payloads, rest: Seq::empty() }),
    decreases payloads.len(),
{
    if payloads.len() > 0 {
        let payload = payloads.first();
        let others = payloads.drop_first();
        let stream = encode(payloads);
        let n = payload.len() as int;
        lemma_prefix_round_trip(payload.len());
        assert(stream.subrange(0, 4) =~= prefix_of(payload.len()));
        assert(prefix_value(stream) == prefix_value(stream.subrange(0, 4)));
        assert(has_frame(stream));
        assert(stream.subrange(4, 4 + n) =~= payload);
        assert(stream.skip(4 + n) =~= encode(others));
        assert forall|i: int| 0 <= i < others.len() implies (#[trigger] others[i]).len()
            <= u32::MAX by {
            assert(others[i] == payloads[i + 1]);
        }
        lemma_decode_encode(others);
        assert(seq![payload] + others =~= payloads);
    }
}

/// What a decoder emits when it is fed `chunks` one after the other, starting
/// with `pending` left over from earlier input.
pub open spec fn decode_chunks(pending: Seq<u8>, chunks: Seq<Seq<u8>>) -> Decoded
    decreases chunks.len(),
{
    if chunks.len() == 0 {
        Decoded { messages: Seq::empty(), rest: pending }
    } else {
        let head = decode(pending + chunks.first());
        let tail = decode_chunks(head.rest, chunks.drop_first());
        Decoded { messages: head.messages + tail.messages, rest: tail.rest }
    }
}

/// Feeding a stream chunk by chunk decodes it as feeding it whole does,
/// however the chunks are cut.
pub proof fn lemma_chunks_as_whole(pending: Seq<u8>, chunks: Seq<Seq<u8>>)
    requires
        !has_frame(pending),
    ensures
        decode_chunks(pending, chunks) == decode(pending + chunks.flatten()),
    decreases chunks.len(),
{
    if chunks.len() == 0 {
        assert(pending + chunks.flatten() =~= pending);
    } else {
        let chunk = chunks.first();
        let others = chunks.drop_first();
        let head = decode(pending + chunk);
        lemma_decode_rest(pending + chunk);
        lemma_chunks_as_whole(head.rest, others);
        lemma_decode_split(pending + chunk, others.flatten());
        assert((pending + chunk) + others.flatten() =~= pending + chunks.flatten());
    }
}

/// Framing round trip: messages written with the length prefix and delivered
/// in fragments of any size, single bytes included, come out of a fresh
/// decoder exactly as they went in, with nothing left over.
pub proof fn lemma_framing_round_trip(payloads: Seq<Seq<u8>>, chunks: Seq<Seq<u8>>)
    requires
        forall|i: int| 0 <= i < payloads.len() ==> (#[trigger] payloads[i]).len() <= u32::MAX,
        chunks.flatten() == encode(payloads),
    ensures
        decode_chunks(Seq::empty(), chunks) == (Decoded {
            messages: payloads,
            rest: Seq::empty(),
        }),
{
    lemma_chunks_as_whole(Seq::empty(), chunks);
    assert(Seq::<u8>::empty() + chunks.flatten() =~= chunks.flatten());
    lemma_decode_encode(payloads);
}

/// Writes `payload` as one message on the wire. Fails if and only if the
/// payload is longer than a length prefix can declare.
pub fn encode_message(payload: &[u8]) -> (wire: Option<Vec<u8>>)
    ensures
        match wire {
            Some(bytes) => payload@.len() <= u32::MAX && bytes@ == frame(payload@),
            None => payload@.len() > u32::MAX,
        },
{
    if payload.len() > 0xffff_ffff {
        return None;
    }
    let len: usize = payload.len();
    let mut bytes: Vec<u8> = Vec::new();
    bytes.push((len / 0x100_0000) as u8);
    bytes.push((len / 0x1_0000 % 0x100) as u8);
    bytes.push((len / 0x100 % 0x100) as u8);
    bytes.push((len % 0x100) as u8);
    assert(bytes@ =~= prefix_of(payload@.len()));
    bytes.extend_from_slice(payload);
    assert(bytes@ =~= frame(payload@));
    Some(bytes)
}

/// Where a decoder stands in the frame that it is receiving.
#[derive(Clone, Copy, Debug, PartialEq, Eq, Structural)]
pub enum FramePhase {
    /// Fewer than four bytes of the length prefix have arrived.
    AwaitingLengthPrefix,
    /// The length is known, and the payload is short of it.
    AwaitingPayload,
}

/// The phase of a decoder that holds `pending` of a frame.
pub open spec fn phase_of(pending: Seq<u8>) -> FramePhase {
    if pending.len() < 4 {
        FramePhase::AwaitingLengthPrefix
    } else {
        FramePhase::AwaitingPayload
    }
}

/// The framing state of one connection: the bytes of the frame that is
/// being received.
#[derive(Debug)]
pub struct FrameDecoder {
    /// Bytes of the length prefix received so far, four at most.
    prefix: Vec<u8>,
    /// Bytes of the payload received so far; empty while the prefix is short.
    payload: Vec<u8>,
}

impl View for FrameDecoder {
    type V = Seq<u8>;

    /// The bytes received since the last complete message.
    closed spec fn view(&self) -> Seq<u8> {
        self.prefix@ + self.payload@
    }
}

impl FrameDecoder {
    /// The decoder holds part of one frame, never a whole one.
    pub closed spec fn wf(&self) -> bool {
        &&& self.prefix@.len() <= 4
        &&& self.prefix@.len() < 4 ==> self.payload@.len() == 0
        &&& self.prefix@.len() == 4 ==> self.payload@.len() < prefix_value(self.prefix@)
    }

    /// A well-formed decoder is waiting for the rest of a frame.
    pub proof fn lemma_wf_incomplete(&self)
        requires
            self.wf(),
        ensures
            !has_frame(self@),
    {
        if self.prefix@.len() == 4 {
            assert(prefix_value(self@) == prefix_value(self.prefix@));
        }
    }

    /// A decoder that awaits the first byte of a length prefix.
    pub fn new() -> (decoder: Self)
        ensures
            decoder.wf(),
            decoder@ == Seq::<u8>::empty(),
    {
        let decoder = FrameDecoder { prefix: Vec::new(), payload: Vec::new() };
        assert(decoder@ =~= Seq::<u8>::empty());
        decoder
    }

    /// Where the decoder stands: it awaits the rest of a length prefix, or
    /// the rest of a payload. With the last byte of a payload it is back at
    /// the start of a prefix.
    pub fn phase(&self) -> (phase: FramePhase)
        requires
            self.wf(),
        ensures
            phase == phase_of(self@),
    {
        if self.prefix.len() < LENGTH_PREFIX_SIZE {
            FramePhase::AwaitingLengthPrefix
        } else {
            FramePhase::AwaitingPayload
        }
    }

    /// Whether the decoder stands between two frames, with no byte of a
    /// frame received.
    pub fn is_idle(&self) -> (idle: bool)
        requires
            self.wf(),
        ensures
            idle == (self@.len() == 0),
    {
        self.prefix.len() == 0
    }

    /// The payload length that a complete prefix declares.
    fn declared_len(&self) -> (len: usize)
        requires
            self.prefix@.len() == 4,
        ensures
            len == prefix_value(self.prefix@),
    {
        let b0: u32 = self.prefix[0] as u32;
        let b1: u32 = self.prefix[1] as u32;
        let b2: u32 = self.prefix[2] as u32;
        let b3: u32 = self.prefix[3] as u32;
        let len: u32 = b0 * 0x100_0000 + b1 * 0x1_0000 + b2 * 0x100 + b3;
        len as usize
    }

    /// Takes one more byte of the stream. Returns the message that the byte
    /// completes, if it completes one.
    pub fn feed_byte(&mut self, byte: u8) -> (message: Option<Vec<u8>>)
        requires
            old(self).wf(),
        ensures
            final(self).wf(),
            decode(old(self)@.push(byte)) == (Decoded {
                messages: match message {
                    Some(m) => seq![m@],
                    None => Seq::empty(),
                },
                rest: final(self)@,
            }),
    {
        let ghost before = self@;
        let ghost stream = before.push(byte);
        proof {
            reveal_with_fuel(decode, 2);
            assert(!has_frame(Seq::<u8>::empty()));
        }
        if self.prefix.len() < LENGTH_PREFIX_SIZE {
            self.prefix.push(byte);
            assert(self.prefix@ =~= stream);
            if self.prefix.len() == LENGTH_PREFIX_SIZE && self.declared_len() == 0 {
                self.prefix.clear();
                let message: Vec<u8> = Vec::new();
                proof {
                    assert(has_frame(stream));
                    assert(stream.subrange(4, 4) =~= message@);
                    assert(stream.skip(4) =~= Seq::<u8>::empty());
                    assert(self@ =~= Seq::<u8>::empty());
                    assert(seq![message@] + Seq::<Seq<u8>>::empty() =~= seq![message@]);
                }
                return Some(message);
            }
            proof {
                assert(self@ =~= stream);
                assert(!has_frame(stream));
            }
            None
        } else {
            let declared = self.declared_len();
            self.payload.push(byte);
            proof {
                assert(self@ =~= stream);
                assert(stream.len() == 4 + self.payload@.len());
                assert(prefix_value(stream) == prefix_value(self.prefix@));
            }
            if self.payload.len() == declared {
                self.prefix.clear();
                let mut message: Vec<u8> = Vec::new();
                std::mem::swap(&mut message, &mut self.payload);
                proof {
                    assert(has_frame(stream));
                    assert(stream.subrange(4, 4 + declared) =~= message@);
                    assert(stream.skip(4 + declared) =~= Seq::<u8>::empty());
                    assert(self@ =~= Seq::<u8>::empty());
                    assert(seq![message@] + Seq::<Seq<u8>>::empty() =~= seq![message@]);
                }
                Some(message)
            } else {
                assert(!has_frame(stream));
                None
            }
        }
    }

    /// Takes bytes of the payload in progress, no more than it still
    /// lacks. Returns the message, if they complete it.
    fn feed_payload(&mut self, chunk: &[u8]) -> (message: Option<Vec<u8>>)
        requires
            old(self).wf(),
            old(self).prefix@.len() == 4,
            0 < chunk@.len() <= prefix_value(old(self).prefix@) - old(self).payload@.len(),
        ensures
            final(self).wf(),
            decode(old(self)@ + chunk@) == (Decoded {
                messages: match message {
                    Some(m) => seq![m@],
                    None => Seq::empty(),
                },
                rest: final(self)@,
            }),
    {
        let ghost stream = self@ + chunk@;
        let ghost held = self.payload@;
        proof {
            reveal_with_fuel(decode, 2);
            assert(!has_frame(Seq::<u8>::empty()));
        }
        let declared = self.declared_len();
        self.payload.extend_from_slice(chunk);
        proof {
            assert(self.payload@ =~= held + chunk@);
            assert(self@ =~= stream);
            assert(prefix_value(stream) == prefix_value(self.prefix@));
        }
        if self.payload.len() == declared {
            self.prefix.clear();
            let mut message: Vec<u8> = Vec::new();
            std::mem::swap(&mut message, &mut self.payload);
            proof {
                assert(has_frame(stream));
                assert(stream.subrange(4, 4 + declared) =~= message@);
                assert(stream.skip(4 + declared) =~= Seq::<u8>::empty());
                assert(self@ =~= Seq::<u8>::empty());
                assert(seq![message@] + Seq::<Seq<u8>>::empty() =~= seq![message@]);
            }
            Some(message)
        } else {
            assert(!has_frame(stream));
            None
        }
    }

    /// Takes the next bytes of the stream and returns the messages that
    /// they complete, in the order of the stream. Bytes of a frame that is
    /// still incomplete are kept for the next call.
    pub fn feed(&mut self, bytes: &[u8]) -> (messages: Vec<Vec<u8>>)
        requires
            old(self).wf(),
        ensures
            final(self).wf(),
            decode(old(self)@ + bytes@) == (Decoded {
                messages: buffers(messages@),
                rest: final(self)@,
            }),
    {
        let ghost before = self@;
        let mut messages: Vec<Vec<u8>> = Vec::new();
        let mut i: usize = 0;
        proof {
            self.lemma_wf_incomplete();
            assert(before + bytes@.take(0) =~= before);
            assert(buffers(messages@) =~= Seq::<Seq<u8>>::empty());
        }
        while i < bytes.len()
            invariant
                i <= bytes@.len(),
                self.wf(),
                decode(before + bytes@.take(i as int)) == (Decoded {
                    messages: buffers(messages@),
                    rest: self@,
                }),
            decreases bytes@.len() - i,
        {
            let ghost seen = before + bytes@.take(i as int);
            let ghost held = self@;
            let ghost emitted = messages@;
            let ghost from = i;
            let completed = if self.prefix.len() < LENGTH_PREFIX_SIZE {
                let byte = bytes[i];
                i += 1;
                assert(bytes@.subrange(from as int, i as int) =~= seq![byte]);
                assert(held + seq![byte] =~= held.push(byte));
                self.feed_byte(byte)
            } else {
                let missing = self.declared_len() - self.payload.len();
                let available = bytes.len() - i;
                let count = if available < missing {
                    available
                } else {
                    missing
                };
                i += count;
                self.feed_payload(slice_subrange(bytes, i - count, i))
            };
            proof {
                let chunk = bytes@.subrange(from as int, i as int);
                lemma_decode_split(seen, chunk);
                assert(seen + chunk =~= before + bytes@.take(i as int));
            }
            match completed {
                Some(message) => {
                    messages.push(message);
                    assert(buffers(messages@) =~= buffers(emitted) + seq![message@]);
                },
                None => {
                    assert(buffers(emitted) + Seq::<Seq<u8>>::empty() =~= buffers(emitted));
                },
            }
        }
        assert(bytes@.take(i as int) =~= bytes@);
        messages
    }
}

} // verus!
