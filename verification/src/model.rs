//! The rules of the reactor, as functions from the table and an event to
//! the table after the event and the actions that the event asks for.

use crate::command::{
    ActionView, ReadResult, Readiness, TcpNetworkCommandView, TcpReaderCMD, TcpReaderCommandView,
    WriteResult, READER_CHANNEL_TOKEN,
};
use crate::connection::{ConnectionView, Interest};
use vstd::prelude::*;

verus! {

/// The result of one operation of the reactor: the table after it, and the
/// actions it asks for, in order.
#[verifier::ext_equal]
pub struct Step<S> {
    pub state: Map<usize, ConnectionView<S>>,
    pub actions: Seq<ActionView<S>>,
}

/// Whether `token` stands in `after` as it stood in `before`.
pub open spec fn untouched<S>(
    before: Map<usize, ConnectionView<S>>,
    after: Map<usize, ConnectionView<S>>,
    token: usize,
) -> bool {
    after.contains_key(token) == before.contains_key(token) && (before.contains_key(token)
        ==> after[token] == before[token])
}

/// The step that changes nothing and asks for nothing.
pub open spec fn stay<S>(state: Map<usize, ConnectionView<S>>) -> Step<S> {
    Step { state, actions: Seq::empty() }
}

/// `step`, with the actions of `done` before its own.
pub open spec fn after<S>(done: Seq<ActionView<S>>, step: Step<S>) -> Step<S> {
    Step { state: step.state, actions: done + step.actions }
}

/// Closing `token`. A token that is not in the table is left alone. The
/// dispatcher is told of the closure only where `notify` says so: when the
/// socket gave the reason, not when the dispatcher asked.
pub open spec fn close_step<S>(
    state: Map<usize, ConnectionView<S>>,
    token: usize,
    notify: bool,
) -> Step<S> {
    if !state.contains_key(token) {
        stay(state)
    } else {
        let release = ActionView::Release { connection: state[token] };
        Step {
            state: state.remove(token),
            actions: if notify {
                seq![
                    release,
                    ActionView::Notify { command: TcpNetworkCommandView::connection_closed(token) },
                ]
            } else {
                seq![release]
            },
        }
    }
}

/// Taking over `socket` under `token`. A token that is already in the
/// table is refused, and the socket handed back.
pub open spec fn handoff_step<S>(
    state: Map<usize, ConnectionView<S>>,
    socket: S,
    token: usize,
) -> Step<S> {
    if state.contains_key(token) {
        Step { state, actions: seq![ActionView::Refuse { token, socket }] }
    } else {
        Step {
            state: state.insert(token, ConnectionView::fresh(socket, token)),
            actions: seq![ActionView::Register { token }],
        }
    }
}

/// Queueing `payload` on `token`. A token that is not in the table is
/// passed over in silence; for one that is, the registration is changed to
/// read and write.
pub open spec fn send_step<S>(
    state: Map<usize, ConnectionView<S>>,
    token: usize,
    payload: Seq<u8>,
) -> Step<S> {
    if !state.contains_key(token) {
        stay(state)
    } else {
        Step {
            state: state.insert(token, state[token].enqueue(payload)),
            actions: seq![ActionView::Reregister { token, interest: Interest::ReadWrite }],
        }
    }
}

/// Raising the interest of `token` to read and write, with its queue as
/// it is. A token that is not in the table is passed over.
pub open spec fn upgrade_step<S>(state: Map<usize, ConnectionView<S>>, token: usize) -> Step<S> {
    if !state.contains_key(token) {
        stay(state)
    } else {
        Step {
            state: state.insert(token, state[token].raised()),
            actions: seq![ActionView::Reregister { token, interest: Interest::ReadWrite }],
        }
    }
}

/// The poll instance has refused to register the socket of `token`, or to
/// change its registration. A connection is in the table only as long as
/// it is registered, so it leaves the table and is handed back for release.
/// The dispatcher has not asked for this and is not told by a notification.
pub open spec fn unregistered_step<S>(
    state: Map<usize, ConnectionView<S>>,
    token: usize,
) -> Step<S> {
    if !state.contains_key(token) {
        stay(state)
    } else {
        Step {
            state: state.remove(token),
            actions: seq![ActionView::Release { connection: state[token] }],
        }
    }
}

/// A handoff command: sockets and tokens are paired from the back of their
/// lists, and taken over last pair first, until either list is used up.
pub open spec fn handoff_all<S>(
    state: Map<usize, ConnectionView<S>>,
    sockets: Seq<S>,
    tokens: Seq<usize>,
) -> Step<S>
    decreases tokens.len(),
{
    if sockets.len() == 0 || tokens.len() == 0 {
        stay(state)
    } else {
        let first = handoff_step(state, sockets.last(), tokens.last());
        after(first.actions, handoff_all(first.state, sockets.drop_last(), tokens.drop_last()))
    }
}

/// A close command: the tokens are closed last first, without a word to
/// the dispatcher.
pub open spec fn close_all<S>(state: Map<usize, ConnectionView<S>>, tokens: Seq<usize>) -> Step<S>
    decreases tokens.len(),
{
    if tokens.len() == 0 {
        stay(state)
    } else {
        let first = close_step(state, tokens.last(), false);
        after(first.actions, close_all(first.state, tokens.drop_last()))
    }
}

/// A send command: `data[i]` is queued on `tokens[i]`, first pair first,
/// until either list is used up.
pub open spec fn send_all<S>(
    state: Map<usize, ConnectionView<S>>,
    tokens: Seq<usize>,
    data: Seq<Seq<u8>>,
) -> Step<S>
    decreases tokens.len(),
{
    if tokens.len() == 0 || data.len() == 0 {
        stay(state)
    } else {
        let first = send_step(state, tokens.first(), data.first());
        after(first.actions, send_all(first.state, tokens.drop_first(), data.drop_first()))
    }
}

/// A command from the control channel.
pub open spec fn notify_step<S>(
    state: Map<usize, ConnectionView<S>>,
    command: TcpReaderCommandView<S>,
) -> Step<S> {
    match command.code {
        TcpReaderCMD::HandleNewConnection => handoff_all(state, command.socket, command.token),
        TcpReaderCMD::CloseConnection => close_all(state, command.token),
        TcpReaderCMD::SendData => send_all(state, command.token, command.data),
    }
}

/// The socket of `token` is readable: the driver reads from it.
pub open spec fn readable_step<S>(state: Map<usize, ConnectionView<S>>, token: usize) -> Step<S> {
    if !state.contains_key(token) {
        stay(state)
    } else {
        Step { state, actions: seq![ActionView::Read { token }] }
    }
}

/// The socket of `token` delivered `bytes`. No bytes mean that the peer
/// has closed the stream. Else the bytes are decoded, and the driver reads
/// on.
pub open spec fn data_step<S>(
    state: Map<usize, ConnectionView<S>>,
    token: usize,
    bytes: Seq<u8>,
) -> Step<S> {
    if !state.contains_key(token) {
        stay(state)
    } else if bytes.len() == 0 {
        end_step(state, token)
    } else {
        Step {
            state: state.insert(token, state[token].receive(bytes)),
            actions: seq![ActionView::Read { token }],
        }
    }
}

/// The peer of `token` has closed the stream in good order: the messages
/// that arrived before go to the dispatcher, then the connection is closed
/// and the dispatcher told so. The bytes of an unfinished frame are lost.
pub open spec fn end_step<S>(state: Map<usize, ConnectionView<S>>, token: usize) -> Step<S> {
    let flushed = flush_step(state, token);
    after(flushed.actions, close_step(flushed.state, token, true))
}

/// The messages that `token` has completed since the last notification go
/// to the dispatcher as one batch, in the order of their arrival. Without a
/// complete message nothing is sent.
pub open spec fn flush_step<S>(state: Map<usize, ConnectionView<S>>, token: usize) -> Step<S> {
    if !state.contains_key(token) || state[token].received.len() == 0 {
        stay(state)
    } else {
        Step {
            state: state.insert(token, state[token].flushed()),
            actions: seq![
                ActionView::Notify {
                    command: TcpNetworkCommandView::new_data(token, state[token].received),
                },
            ],
        }
    }
}

/// The socket of `token` took `n` bytes of the output it was offered.
/// When the queue is empty after that, the registration falls back to
/// reading. Else the driver is asked to write on if the write has moved the
/// queue on, and waits for the next writable event if it has not.
pub open spec fn drain_step<S>(
    state: Map<usize, ConnectionView<S>>,
    token: usize,
    n: nat,
) -> Step<S> {
    if !state.contains_key(token) {
        stay(state)
    } else {
        let connection = state[token].written(n);
        Step {
            state: state.insert(token, connection),
            actions: if connection.outbound.len() == 0 {
                seq![ActionView::Reregister { token, interest: Interest::Read }]
            } else if state[token].progressed(n) {
                seq![ActionView::Write { token }]
            } else {
                Seq::empty()
            },
        }
    }
}

/// The socket of `token` is writable: the driver writes the output of the
/// connection, if a buffer is queued. With an empty queue the registration
/// falls back to reading.
pub open spec fn writable_step<S>(state: Map<usize, ConnectionView<S>>, token: usize) -> Step<S> {
    if state.contains_key(token) && state[token].outbound.len() > 0 {
        Step { state, actions: seq![ActionView::Write { token }] }
    } else {
        drain_step(state, token, 0)
    }
}

/// A read from the socket of `token` ended with `result`. When the socket
/// has no more bytes for now, what was received is sent to the dispatcher. A
/// failed read closes the connection, and what it had received since the
/// last notification is not delivered.
pub open spec fn received_step<S>(
    state: Map<usize, ConnectionView<S>>,
    token: usize,
    result: ReadResult,
) -> Step<S> {
    match result {
        ReadResult::Data(bytes) => data_step(state, token, bytes@),
        ReadResult::WouldBlock => flush_step(state, token),
        ReadResult::Failed => close_step(state, token, true),
    }
}

/// A write to the socket of `token` ended with `result`. After a write
/// that took nothing of a buffer that has bytes, the driver waits for the
/// next writable event.
pub open spec fn written_step<S>(
    state: Map<usize, ConnectionView<S>>,
    token: usize,
    result: WriteResult,
) -> Step<S> {
    match result {
        WriteResult::Written(n) => drain_step(state, token, n as nat),
        WriteResult::WouldBlock => stay(state),
        WriteResult::Failed => close_step(state, token, true),
    }
}

/// The poll instance reported `readiness` of `token`. The token of the
/// control channel announces a command. Of a connection, an error or a
/// hang-up closes it; else it is read if readable and written if writable.
pub open spec fn ready_step<S>(
    state: Map<usize, ConnectionView<S>>,
    token: usize,
    readiness: Readiness,
) -> Step<S> {
    if token == READER_CHANNEL_TOKEN {
        Step { state, actions: seq![ActionView::ReceiveCommand] }
    } else if !state.contains_key(token) {
        stay(state)
    } else if readiness.error || readiness.hup {
        close_step(state, token, true)
    } else {
        after(
            if readiness.readable {
                readable_step(state, token).actions
            } else {
                Seq::empty()
            },
            if readiness.writable {
                writable_step(state, token)
            } else {
                stay(state)
            },
        )
    }
}

} // verus!
