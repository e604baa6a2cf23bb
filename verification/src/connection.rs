//! One live connection: its socket handle, its token, the queue of bytes
//! that wait to be written and the state of the frame that is being read.

use crate::framing::{buffers, decode, has_frame, lemma_decode_split, shared, FrameDecoder};
use std::collections::VecDeque;
use std::sync::Arc;
use vstd::prelude::*;
use vstd::slice::slice_subrange;

verus! {

/// The readiness a socket is registered for with the poll instance.
#[derive(Clone, Copy, Debug, PartialEq, Eq, Structural)]
pub enum Interest {
    /// Readable events only: nothing waits to be written.
    Read,
    /// Readable and writable events.
    ReadWrite,
}

/// A connection as contracts see it.
#[verifier::ext_equal]
pub struct ConnectionView<S> {
    /// The socket handle.
    pub socket: S,
    /// The identity of the connection.
    pub token: usize,
    /// The bytes that wait to be written, buffer by buffer, next first.
    pub outbound: Seq<Seq<u8>>,
    /// The bytes received of the frame in progress.
    pub pending: Seq<u8>,
    /// The messages completed since the dispatcher was last notified.
    pub received: Seq<Seq<u8>>,
    /// The interest the socket is registered for.
    pub interest: Interest,
}

impl<S> ConnectionView<S> {
    /// A connection that was just handed over: nothing read, nothing to
    /// write, registered for reading.
    pub open spec fn fresh(socket: S, token: usize) -> Self {
        ConnectionView {
            socket,
            token,
            outbound: Seq::empty(),
            pending: Seq::empty(),
            received: Seq::empty(),
            interest: Interest::Read,
        }
    }

    /// What holds of every connection: a queued buffer implies write
    /// interest, and no complete frame waits undecoded.
    pub open spec fn wf(self) -> bool {
        &&& !has_frame(self.pending)
        &&& self.outbound.len() > 0 ==> self.interest == Interest::ReadWrite
    }

    /// After `payload` was queued for writing: it stands last in the queue,
    /// whatever it holds, and the interest is read and write.
    pub open spec fn enqueue(self, payload: Seq<u8>) -> Self {
        ConnectionView {
            outbound: self.outbound.push(payload),
            interest: Interest::ReadWrite,
            ..self
        }
    }

    /// With the interest raised to read and write, and the queue as it was.
    pub open spec fn raised(self) -> Self {
        ConnectionView { interest: Interest::ReadWrite, ..self }
    }

    /// Whether a write that took `n` bytes has moved the queue on: it took
    /// bytes, or the buffer it was offered had none and is done with that.
    pub open spec fn progressed(self, n: nat) -> bool {
        self.outbound.len() > 0 && (n > 0 || self.outbound[0].len() == 0)
    }

    /// The queue after the socket took `n` bytes of its first buffer: a
    /// buffer that was taken whole leaves the queue, as one without bytes
    /// does with any write; a partial write leaves the remainder of the
    /// buffer at the front.
    pub open spec fn drained(self, n: nat) -> Seq<Seq<u8>> {
        if self.outbound.len() == 0 {
            self.outbound
        } else if n >= self.outbound[0].len() {
            self.outbound.drop_first()
        } else {
            self.outbound.update(0, self.outbound[0].skip(n as int))
        }
    }

    /// After the socket took `n` bytes of the first queued buffer. Once the
    /// queue is empty the interest falls back to reading.
    pub open spec fn written(self, n: nat) -> Self {
        let rest = self.drained(n);
        ConnectionView {
            outbound: rest,
            interest: if rest.len() == 0 {
                Interest::Read
            } else {
                Interest::ReadWrite
            },
            ..self
        }
    }

    /// After `bytes` arrived from the socket: the messages they complete
    /// join those already received, the rest stays pending.
    pub open spec fn receive(self, bytes: Seq<u8>) -> Self {
        let decoded = decode(self.pending + bytes);
        ConnectionView {
            pending: decoded.rest,
            received: self.received + decoded.messages,
            ..self
        }
    }

    /// After the received messages were handed to the dispatcher.
    pub open spec fn flushed(self) -> Self {
        ConnectionView { received: Seq::empty(), ..self }
    }

    /// Bytes that arrive in two reads are decoded as if they had arrived
    /// in one: the same messages are received, in the same order, and the
    /// same bytes stay pending.
    pub proof fn lemma_receive_in_fragments(self, first: Seq<u8>, second: Seq<u8>)
        ensures
            self.receive(first).receive(second) == self.receive(first + second),
    {
        lemma_decode_split(self.pending + first, second);
        assert((self.pending + first) + second =~= self.pending + (first + second));
        let head = decode(self.pending + first);
        let tail = decode(head.rest + second);
        assert((self.received + head.messages) + tail.messages =~= self.received + (head.messages
            + tail.messages));
    }
}

/// One live TCP stream, owned by the reactor that holds it. `S` is the
/// socket handle, which the reactor carries and never looks into.
#[derive(Debug)]
pub struct Connection<S> {
    socket: S,
    token: usize,
    /// Buffers that wait to be written, first in first out.
    write_queue: VecDeque<Arc<Vec<u8>>>,
    /// Bytes of the first queued buffer that the socket has taken.
    written: usize,
    decoder: FrameDecoder,
    /// Messages decoded since the dispatcher was last notified.
    received: Vec<Arc<Vec<u8>>>,
    interest: Interest,
}

impl<S> View for Connection<S> {
    type V = ConnectionView<S>;

    closed spec fn view(&self) -> ConnectionView<S> {
        ConnectionView {
            socket: self.socket,
            token: self.token,
            outbound: Seq::new(
                self.write_queue@.len(),
                |i: int|
                    if i == 0 {
                        self.write_queue@[0]@.skip(self.written as int)
                    } else {
                        self.write_queue@[i]@
                    },
            ),
            pending: self.decoder@,
            received: shared(self.received@),
            interest: self.interest,
        }
    }
}

impl<S> Connection<S> {
    /// The invariant of the representation.
    pub closed spec fn wf(&self) -> bool {
        &&& self.decoder.wf()
        &&& self.write_queue@.len() == 0 ==> self.written == 0
        &&& self.write_queue@.len() > 0 ==> self.written <= self.write_queue@[0]@.len()
        &&& self.write_queue@.len() > 0 ==> self.interest == Interest::ReadWrite
    }

    /// A well-formed connection has a well-formed view.
    pub proof fn lemma_wf_view(&self)
        requires
            self.wf(),
        ensures
            self@.wf(),
    {
        self.decoder.lemma_wf_incomplete();
    }

    /// A connection for a socket that was just handed over.
    pub fn new(socket: S, token: usize) -> (connection: Self)
        ensures
            connection.wf(),
            connection@ == ConnectionView::fresh(socket, token),
    {
        let connection = Connection {
            socket,
            token,
            write_queue: VecDeque::new(),
            written: 0,
            decoder: FrameDecoder::new(),
            received: Vec::new(),
            interest: Interest::Read,
        };
        assert(connection@ =~= ConnectionView::fresh(socket, token));
        connection
    }

    /// The identity of the connection.
    pub fn token(&self) -> (token: usize)
        ensures
            token == self@.token,
    {
        self.token
    }

    /// The socket handle.
    pub fn socket(&self) -> (socket: &S)
        ensures
            *socket == self@.socket,
    {
        &self.socket
    }

    /// Gives the socket handle back, dropping the rest of the connection.
    pub fn into_socket(self) -> (socket: S)
        ensures
            socket == self@.socket,
    {
        self.socket
    }

    /// The interest the socket is registered for.
    pub fn interest(&self) -> (interest: Interest)
        ensures
            interest == self@.interest,
    {
        self.interest
    }

    /// Number of buffers that wait to be written.
    pub fn queued(&self) -> (count: usize)
        ensures
            count == self@.outbound.len(),
    {
        self.write_queue.len()
    }

    /// The bytes to hand to the socket next: what is left of the first
    /// queued buffer, which is nothing where the buffer was queued without
    /// bytes. `None` when no buffer waits to be written.
    pub fn output(&self) -> (bytes: Option<&[u8]>)
        requires
            self.wf(),
        ensures
            match bytes {
                Some(b) => self@.outbound.len() > 0 && b@ == self@.outbound[0],
                None => self@.outbound.len() == 0,
            },
    {
        if self.write_queue.len() == 0 {
            None
        } else {
            let front = &self.write_queue[0];
            let rest = slice_subrange(front.as_slice(), self.written, front.len());
            assert(rest@ =~= self@.outbound[0]);
            Some(rest)
        }
    }

    /// Queues `payload` for writing, behind what is queued already, and
    /// raises the interest to read and write.
    pub fn enqueue(&mut self, payload: Arc<Vec<u8>>)
        requires
            old(self).wf(),
        ensures
            final(self).wf(),
            final(self)@ == old(self)@.enqueue(payload@),
    {
        self.write_queue.push_back(payload);
        self.interest = Interest::ReadWrite;
        assert(self@.outbound =~~= old(self)@.enqueue(payload@).outbound);
    }

    /// Raises the interest to read and write; the queue stays as it is.
    pub fn raise_interest(&mut self)
        requires
            old(self).wf(),
        ensures
            final(self).wf(),
            final(self)@ == old(self)@.raised(),
    {
        self.interest = Interest::ReadWrite;
    }

    /// Records that the socket took `n` bytes of `output`. A buffer that
    /// was written whole leaves the queue, and so does one that held no
    /// bytes; when the queue is empty the interest falls back to reading.
    pub fn advance(&mut self, n: usize)
        requires
            old(self).wf(),
        ensures
            final(self).wf(),
            final(self)@ == old(self)@.written(n as nat),
    {
        if self.write_queue.len() > 0 {
            let left = self.write_queue[0].len() - self.written;
            if n >= left {
                let _ = self.write_queue.pop_front();
                self.written = 0;
            } else {
                self.written = self.written + n;
            }
        }
        if self.write_queue.len() == 0 {
            self.interest = Interest::Read;
        }
        assert(self@.outbound =~~= old(self)@.drained(n as nat));
    }

    /// Decodes `bytes` as the next bytes of the inbound stream and keeps the
    /// messages they complete until the dispatcher is notified, each in a
    /// buffer of its own that can be shared across threads.
    pub fn receive(&mut self, bytes: &[u8])
        requires
            old(self).wf(),
        ensures
            final(self).wf(),
            final(self)@ == old(self)@.receive(bytes@),
    {
        let ghost before = shared(self.received@);
        let mut messages = self.decoder.feed(bytes);
        let ghost decoded = buffers(messages@);
        let mut i: usize = 0;
        assert(decoded.take(0) =~= Seq::<Seq<u8>>::empty());
        assert(before + Seq::<Seq<u8>>::empty() =~= before);
        while i < messages.len()
            invariant
                i <= messages@.len(),
                messages@.len() == decoded.len(),
                forall|j: int|
                    i <= j < messages@.len() ==> (#[trigger] messages@[j])@ == decoded[j],
                shared(self.received@) == before + decoded.take(i as int),
                self.socket == old(self).socket,
                self.token == old(self).token,
                self.write_queue == old(self).write_queue,
                self.written == old(self).written,
                self.interest == old(self).interest,
                self.decoder.wf(),
                self.decoder@ == decode(old(self)@.pending + bytes@).rest,
            decreases messages@.len() - i,
        {
            let ghost held = shared(self.received@);
            let mut message: Vec<u8> = Vec::new();
            std::mem::swap(&mut message, &mut messages[i]);
            self.received.push(Arc::new(message));
            assert(shared(self.received@) =~= held.push(decoded[i as int]));
            assert(decoded.take(i + 1) =~= decoded.take(i as int).push(decoded[i as int]));
            assert(before + decoded.take(i + 1) =~= (before + decoded.take(i as int)).push(
                decoded[i as int],
            ));
            i += 1;
        }
        assert(decoded.take(i as int) =~= decoded);
    }

    /// Takes the messages received since the last call, in stream order.
    pub fn take_received(&mut self) -> (messages: Vec<Arc<Vec<u8>>>)
        requires
            old(self).wf(),
        ensures
            final(self).wf(),
            final(self)@ == old(self)@.flushed(),
            shared(messages@) == old(self)@.received,
    {
        let mut messages: Vec<Arc<Vec<u8>>> = Vec::new();
        std::mem::swap(&mut messages, &mut self.received);
        assert(shared(self.received@) =~= Seq::<Seq<u8>>::empty());
        messages
    }
}

} // verus!
