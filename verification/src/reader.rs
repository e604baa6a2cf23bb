//! The reactor: the connection table together with the operations by which
//! commands and socket events change it.
//!
//! The reactor does no I/O. Each of its operations takes one event, changes
//! the table, and returns the actions that the driver carries out: on the
//! poll instance, on the sockets, and on the channel to the dispatcher. An
//! action that produces a new event (a read, a write, a command taken from
//! the control channel) is followed by the driver handing that event back.

use crate::command::{
    action_views, Action, ActionView, ReadResult, Readiness, TcpNetworkCommand,
    TcpNetworkCommandView, TcpReaderCMD, TcpReaderCommand, WriteResult, READER_CHANNEL_TOKEN,
};
use crate::connection::{Connection, ConnectionView, Interest};
use crate::event::{event_readiness, event_readiness_of, event_token, event_token_of};
use crate::framing::shared;
use std::sync::Arc;
use crate::model::{
    after, close_all, close_step, data_step, drain_step, end_step, flush_step, handoff_all,
    handoff_step, notify_step, readable_step, ready_step, received_step, send_all, send_step,
    unregistered_step, upgrade_step, writable_step, written_step, Step,
};
use crate::table::{consistent, ConnectionTable};
use vstd::prelude::*;

verus! {

/// The reactor of one thread: the connections it owns.
#[derive(Debug)]
pub struct TcpReader<S> {
    connections: ConnectionTable<S>,
}

impl<S> View for TcpReader<S> {
    type V = Map<usize, ConnectionView<S>>;

    closed spec fn view(&self) -> Map<usize, ConnectionView<S>> {
        self.connections@
    }
}

impl<S> TcpReader<S> {
    /// The invariant of the representation.
    pub closed spec fn wf(&self) -> bool {
        self.connections.wf()
    }

    /// Every connection of a well-formed reactor is stored under its own
    /// token and is well formed.
    pub proof fn lemma_wf_view(&self)
        requires
            self.wf(),
        ensures
            consistent(self@),
            self@.dom().finite(),
    {
        self.connections.lemma_wf_view();
    }

    /// A reactor without connections.
    pub fn new() -> (reader: Self)
        ensures
            reader.wf(),
            reader@ == Map::<usize, ConnectionView<S>>::empty(),
    {
        TcpReader { connections: ConnectionTable::new() }
    }

    /// Number of connections.
    pub fn len(&self) -> (count: usize)
        requires
            self.wf(),
        ensures
            count == self@.len(),
    {
        self.connections.len()
    }

    /// The connection of `token`, if the reactor has it.
    pub fn connection(&self, token: usize) -> (found: Option<&Connection<S>>)
        requires
            self.wf(),
        ensures
            match found {
                Some(connection) => {
                    &&& self@.contains_key(token)
                    &&& connection@ == self@[token]
                    &&& connection@.token == token
                    &&& connection.wf()
                },
                None => !self@.contains_key(token),
            },
    {
        self.connections.get(token)
    }

    /// The socket of `token`, if the reactor has it.
    pub fn socket(&self, token: usize) -> (found: Option<&S>)
        requires
            self.wf(),
        ensures
            match found {
                Some(socket) => self@.contains_key(token) && *socket == self@[token].socket,
                None => !self@.contains_key(token),
            },
    {
        match self.connections.get(token) {
            Some(connection) => Some(connection.socket()),
            None => None,
        }
    }

    /// The bytes to write to the socket of `token` next: what is left of
    /// the first buffer of its queue. `None` when the reactor does not have
    /// the token, or nothing waits to be written.
    pub fn output(&self, token: usize) -> (bytes: Option<&[u8]>)
        requires
            self.wf(),
        ensures
            match bytes {
                Some(b) => {
                    &&& self@.contains_key(token)
                    &&& self@[token].outbound.len() > 0
                    &&& b@ == self@[token].outbound[0]
                },
                None => !self@.contains_key(token) || self@[token].outbound.len() == 0,
            },
    {
        match self.connections.get(token) {
            Some(connection) => connection.output(),
            None => None,
        }
    }

    /// Closes `token` and appends what that asks for to `actions`.
    fn close_into(&mut self, token: usize, send_data_event: bool, actions: &mut Vec<Action<S>>)
        requires
            old(self).wf(),
        ensures
            final(self).wf(),
            (Step { state: final(self)@, actions: action_views(final(actions)@) }) == after(
                action_views(old(actions)@),
                close_step(old(self)@, token, send_data_event),
            ),
    {
        let ghost done = action_views(actions@);
        match self.connections.remove(token) {
            None => {
                assert(action_views(actions@) =~= done + Seq::<ActionView<S>>::empty());
            },
            Some(connection) => {
                let ghost release = ActionView::Release { connection: connection@ };
                actions.push(Action::Release { connection });
                if send_data_event {
                    let command = TcpNetworkCommand::connection_closed(token);
                    actions.push(Action::Notify { command });
                    assert(action_views(actions@) =~= done + seq![
                        release,
                        ActionView::Notify {
                            command: TcpNetworkCommandView::connection_closed(token),
                        },
                    ]);
                } else {
                    assert(action_views(actions@) =~= done + seq![release]);
                }
            },
        }
    }

    /// Closes the connection of `token`, if the reactor has it: the
    /// connection leaves the table and is handed to the driver for release.
    /// With `send_data_event` the dispatcher is told of the closure.
    /// Closing a token that the reactor does not have does nothing.
    pub fn close_connection(&mut self, token: usize, send_data_event: bool) -> (actions: Vec<
        Action<S>,
    >)
        requires
            old(self).wf(),
        ensures
            final(self).wf(),
            (Step { state: final(self)@, actions: action_views(actions@) }) == close_step(
                old(self)@,
                token,
                send_data_event,
            ),
    {
        let mut actions: Vec<Action<S>> = Vec::new();
        self.close_into(token, send_data_event, &mut actions);
        assert(Seq::<ActionView<S>>::empty() + close_step(
            old(self)@,
            token,
            send_data_event,
        ).actions =~= close_step(old(self)@, token, send_data_event).actions);
        actions
    }

    /// Queues `payload` on `token` and appends what that asks for to
    /// `actions`.
    fn send_into(
        &mut self,
        token: usize,
        payload: Arc<Vec<u8>>,
        actions: &mut Vec<Action<S>>,
    )
        requires
            old(self).wf(),
        ensures
            final(self).wf(),
            (Step { state: final(self)@, actions: action_views(final(actions)@) }) == after(
                action_views(old(actions)@),
                send_step(old(self)@, token, payload@),
            ),
    {
        let ghost done = action_views(actions@);
        let ghost step = send_step(old(self)@, token, payload@);
        match self.connections.get_mut(token) {
            Some(connection) => {
                connection.enqueue(payload);
                actions.push(Action::Reregister { token, interest: Interest::ReadWrite });
            },
            None => {},
        }
        assert(action_views(actions@) =~= done + step.actions);
    }

    /// Raises the interest of `token` to read and write and asks for the
    /// change of its registration, so that the reactor hears when its socket
    /// can be written. A token that the reactor does not have is passed over.
    pub fn make_writable(&mut self, token: usize) -> (actions: Vec<Action<S>>)
        requires
            old(self).wf(),
        ensures
            final(self).wf(),
            (Step { state: final(self)@, actions: action_views(actions@) }) == upgrade_step(
                old(self)@,
                token,
            ),
    {
        let mut actions: Vec<Action<S>> = Vec::new();
        match self.connections.get_mut(token) {
            Some(connection) => {
                connection.raise_interest();
                actions.push(Action::Reregister { token, interest: Interest::ReadWrite });
            },
            None => {},
        }
        assert(action_views(actions@) =~= upgrade_step(old(self)@, token).actions);
        actions
    }

    /// Takes a connection out of the table whose registration with the
    /// poll instance has failed, so that no connection stays in the table
    /// that the poll instance does not know. The connection is handed to the
    /// driver for release; no notification goes to the dispatcher. A token
    /// that the reactor does not have is passed over.
    pub fn registration_failed(&mut self, token: usize) -> (actions: Vec<Action<S>>)
        requires
            old(self).wf(),
        ensures
            final(self).wf(),
            !final(self)@.contains_key(token),
            (Step { state: final(self)@, actions: action_views(actions@) }) == unregistered_step(
                old(self)@,
                token,
            ),
    {
        let mut actions: Vec<Action<S>> = Vec::new();
        self.close_into(token, false, &mut actions);
        assert(Seq::<ActionView<S>>::empty() + unregistered_step(old(self)@, token).actions
            =~= unregistered_step(old(self)@, token).actions);
        actions
    }

    /// Takes over the sockets of a handoff command.
    fn handoff(&mut self, sockets: Vec<S>, tokens: Vec<usize>) -> (actions: Vec<Action<S>>)
        requires
            old(self).wf(),
        ensures
            final(self).wf(),
            (Step { state: final(self)@, actions: action_views(actions@) }) == handoff_all(
                old(self)@,
                sockets@,
                tokens@,
            ),
    {
        let mut sockets = sockets;
        let mut tokens = tokens;
        let ghost all_sockets = sockets@;
        let ghost all_tokens = tokens@;
        let mut actions: Vec<Action<S>> = Vec::new();
        assert(Seq::<ActionView<S>>::empty() + handoff_all(self@, sockets@, tokens@).actions
            =~= handoff_all(self@, sockets@, tokens@).actions);
        while sockets.len() > 0 && tokens.len() > 0
            invariant
                self.wf(),
                handoff_all(old(self)@, all_sockets, all_tokens) == after(
                    action_views(actions@),
                    handoff_all(self@, sockets@, tokens@),
                ),
            decreases tokens.len(),
        {
            let ghost done = action_views(actions@);
            let ghost state = self@;
            let ghost first = handoff_step(state, sockets@.last(), tokens@.last());
            let ghost rest = handoff_all(first.state, sockets@.drop_last(), tokens@.drop_last());
            let socket = sockets.pop().unwrap();
            let token = tokens.pop().unwrap();
            match self.connections.add(token, socket) {
                Ok(_) => {
                    actions.push(Action::Register { token });
                },
                Err(e) => {
                    actions.push(Action::Refuse { token: e.token, socket: e.socket });
                },
            }
            proof {
                assert(action_views(actions@) =~= done + first.actions);
                assert(done + (first.actions + rest.actions) =~= (done + first.actions)
                    + rest.actions);
            }
        }
        assert(action_views(actions@) + Seq::<ActionView<S>>::empty() =~= action_views(actions@));
        actions
    }

    /// Closes the tokens of a close command.
    fn close_each(&mut self, tokens: Vec<usize>) -> (actions: Vec<Action<S>>)
        requires
            old(self).wf(),
        ensures
            final(self).wf(),
            (Step { state: final(self)@, actions: action_views(actions@) }) == close_all(
                old(self)@,
                tokens@,
            ),
    {
        let mut tokens = tokens;
        let ghost all_tokens = tokens@;
        let mut actions: Vec<Action<S>> = Vec::new();
        assert(Seq::<ActionView<S>>::empty() + close_all(self@, tokens@).actions =~= close_all(
            self@,
            tokens@,
        ).actions);
        while tokens.len() > 0
            invariant
                self.wf(),
                close_all(old(self)@, all_tokens) == after(
                    action_views(actions@),
                    close_all(self@, tokens@),
                ),
            decreases tokens.len(),
        {
            let ghost done = action_views(actions@);
            let ghost first = close_step(self@, tokens@.last(), false);
            let ghost rest = close_all(first.state, tokens@.drop_last());
            let token = tokens.pop().unwrap();
            self.close_into(token, false, &mut actions);
            proof {
                assert(done + (first.actions + rest.actions) =~= (done + first.actions)
                    + rest.actions);
            }
        }
        assert(action_views(actions@) + Seq::<ActionView<S>>::empty() =~= action_views(actions@));
        actions
    }

    /// Queues the payloads of a send command.
    fn send_each(
        &mut self,
        tokens: Vec<usize>,
        data: Vec<Arc<Vec<u8>>>,
    ) -> (actions: Vec<Action<S>>)
        requires
            old(self).wf(),
        ensures
            final(self).wf(),
            (Step { state: final(self)@, actions: action_views(actions@) }) == send_all(
                old(self)@,
                tokens@,
                shared(data@),
            ),
    {
        let mut data = data;
        let ghost payloads = shared(data@);
        let mut actions: Vec<Action<S>> = Vec::new();
        let mut i: usize = 0;
        proof {
            assert(tokens@.skip(0) =~= tokens@);
            assert(payloads.skip(0) =~= payloads);
            assert(Seq::<ActionView<S>>::empty() + send_all(self@, tokens@, payloads).actions
                =~= send_all(self@, tokens@, payloads).actions);
        }
        while i < tokens.len() && i < data.len()
            invariant
                self.wf(),
                i <= tokens@.len(),
                i <= data@.len(),
                data@.len() == payloads.len(),
                forall|j: int| i <= j < data@.len() ==> (#[trigger] data@[j])@ == payloads[j],
                send_all(old(self)@, tokens@, payloads) == after(
                    action_views(actions@),
                    send_all(self@, tokens@.skip(i as int), payloads.skip(i as int)),
                ),
            decreases tokens@.len() - i,
        {
            let ghost done = action_views(actions@);
            let ghost first = send_step(self@, tokens@[i as int], payloads[i as int]);
            let ghost rest = send_all(
                first.state,
                tokens@.skip(i + 1),
                payloads.skip(i + 1),
            );
            proof {
                assert(tokens@.skip(i as int).first() == tokens@[i as int]);
                assert(payloads.skip(i as int).first() == payloads[i as int]);
                assert(tokens@.skip(i as int).drop_first() =~= tokens@.skip(i + 1));
                assert(payloads.skip(i as int).drop_first() =~= payloads.skip(i + 1));
            }
            let token = tokens[i];
            let mut payload: Arc<Vec<u8>> = Arc::new(Vec::new());
            std::mem::swap(&mut payload, &mut data[i]);
            self.send_into(token, payload, &mut actions);
            proof {
                assert(done + (first.actions + rest.actions) =~= (done + first.actions)
                    + rest.actions);
            }
            i += 1;
        }
        assert(action_views(actions@) + Seq::<ActionView<S>>::empty() =~= action_views(actions@));
        actions
    }

    /// Carries out one command of the control channel.
    ///
    /// A handoff adds each socket to the table under its token and asks
    /// for its registration; a token that is already in the table is refused.
    /// A close removes each token that is in the table, without a
    /// notification to the dispatcher. A send queues each payload on its
    /// token and asks for write interest; tokens that are not in the table,
    /// closed a moment ago perhaps, are passed over in silence.
    pub fn notify(&mut self, cmd: TcpReaderCommand<S>) -> (actions: Vec<Action<S>>)
        requires
            old(self).wf(),
        ensures
            final(self).wf(),
            (Step { state: final(self)@, actions: action_views(actions@) }) == notify_step(
                old(self)@,
                cmd@,
            ),
    {
        match cmd.code {
            TcpReaderCMD::HandleNewConnection => self.handoff(cmd.socket, cmd.token),
            TcpReaderCMD::CloseConnection => self.close_each(cmd.token),
            TcpReaderCMD::SendData => self.send_each(cmd.token, cmd.data),
        }
    }

    /// Hands the messages that `token` has received to the dispatcher, by
    /// a notification appended to `actions`.
    fn flush_into(&mut self, token: usize, actions: &mut Vec<Action<S>>)
        requires
            old(self).wf(),
        ensures
            final(self).wf(),
            (Step { state: final(self)@, actions: action_views(final(actions)@) }) == after(
                action_views(old(actions)@),
                flush_step(old(self)@, token),
            ),
    {
        let ghost done = action_views(actions@);
        let messages = match self.connections.get_mut(token) {
            Some(connection) => connection.take_received(),
            None => Vec::new(),
        };
        assert(shared(messages@).len() == messages@.len());
        if messages.len() > 0 {
            let command = TcpNetworkCommand::new_data(token, messages);
            let ghost sent = ActionView::<S>::Notify { command: command@ };
            actions.push(Action::Notify { command });
            assert(action_views(actions@) =~= done + seq![sent]);
        } else {
            assert(self@ =~~= old(self)@);
            assert(action_views(actions@) =~= done + Seq::<ActionView<S>>::empty());
        }
    }

    /// The socket of `token` is readable: asks the driver to read from it.
    pub fn readable(&mut self, token: usize) -> (actions: Vec<Action<S>>)
        requires
            old(self).wf(),
        ensures
            final(self).wf(),
            (Step { state: final(self)@, actions: action_views(actions@) }) == readable_step(
                old(self)@,
                token,
            ),
    {
        let mut actions: Vec<Action<S>> = Vec::new();
        if self.connections.contains(token) {
            actions.push(Action::Read { token });
        }
        assert(action_views(actions@) =~= readable_step(old(self)@, token).actions);
        actions
    }

    /// Takes the result of a read from the socket of `token`.
    ///
    /// Bytes are decoded and the driver is asked to read on. When the
    /// socket has no more for now, the messages completed since the last
    /// notification go to the dispatcher in one notification. An end of
    /// stream, which shows as a read of no bytes, sends them too, and then
    /// closes the connection and tells the dispatcher so. A failed read
    /// closes the connection at once, and tells the dispatcher so.
    pub fn received(&mut self, token: usize, result: ReadResult) -> (actions: Vec<Action<S>>)
        requires
            old(self).wf(),
        ensures
            final(self).wf(),
            (Step { state: final(self)@, actions: action_views(actions@) }) == received_step(
                old(self)@,
                token,
                result,
            ),
    {
        let mut actions: Vec<Action<S>> = Vec::new();
        let ghost none = Seq::<ActionView<S>>::empty();
        match result {
            ReadResult::Data(bytes) => {
                if bytes.len() == 0 {
                    self.flush_into(token, &mut actions);
                    self.close_into(token, true, &mut actions);
                    assert(none + end_step(old(self)@, token).actions =~= end_step(
                        old(self)@,
                        token,
                    ).actions);
                } else {
                    match self.connections.get_mut(token) {
                        Some(connection) => {
                            connection.receive(bytes);
                            actions.push(Action::Read { token });
                        },
                        None => {},
                    }
                    assert(action_views(actions@) =~= data_step(
                        old(self)@,
                        token,
                        bytes@,
                    ).actions);
                }
            },
            ReadResult::WouldBlock => {
                self.flush_into(token, &mut actions);
                assert(none + flush_step(old(self)@, token).actions =~= flush_step(
                    old(self)@,
                    token,
                ).actions);
            },
            ReadResult::Failed => {
                self.close_into(token, true, &mut actions);
                assert(none + close_step(old(self)@, token, true).actions =~= close_step(
                    old(self)@,
                    token,
                    true,
                ).actions);
            },
        }
        actions
    }

    /// Records that the socket of `token` took `n` bytes and appends what
    /// follows from it to `actions`.
    fn drain_into(&mut self, token: usize, n: usize, actions: &mut Vec<Action<S>>)
        requires
            old(self).wf(),
        ensures
            final(self).wf(),
            (Step { state: final(self)@, actions: action_views(final(actions)@) }) == after(
                action_views(old(actions)@),
                drain_step(old(self)@, token, n as nat),
            ),
    {
        let ghost done = action_views(actions@);
        let ghost step = drain_step(old(self)@, token, n as nat);
        match self.connections.get_mut(token) {
            Some(connection) => {
                let moved = match connection.output() {
                    Some(bytes) => n > 0 || bytes.len() == 0,
                    None => false,
                };
                connection.advance(n);
                if connection.queued() == 0 {
                    actions.push(Action::Reregister { token, interest: Interest::Read });
                } else if moved {
                    actions.push(Action::Write { token });
                }
            },
            None => {},
        }
        assert(action_views(actions@) =~= done + step.actions);
    }

    /// Answers a writable socket of `token` and appends what that asks for
    /// to `actions`.
    fn writable_into(&mut self, token: usize, actions: &mut Vec<Action<S>>)
        requires
            old(self).wf(),
        ensures
            final(self).wf(),
            (Step { state: final(self)@, actions: action_views(final(actions)@) }) == after(
                action_views(old(actions)@),
                writable_step(old(self)@, token),
            ),
    {
        let ghost done = action_views(actions@);
        let queued = match self.connections.get(token) {
            Some(connection) => connection.queued() > 0,
            None => false,
        };
        if queued {
            actions.push(Action::Write { token });
            assert(action_views(actions@) =~= done + writable_step(old(self)@, token).actions);
        } else {
            self.drain_into(token, 0, actions);
        }
    }

    /// The socket of `token` is writable: asks the driver to write its
    /// output. With nothing queued, the registration of the socket falls
    /// back to reading.
    pub fn writable(&mut self, token: usize) -> (actions: Vec<Action<S>>)
        requires
            old(self).wf(),
        ensures
            final(self).wf(),
            (Step { state: final(self)@, actions: action_views(actions@) }) == writable_step(
                old(self)@,
                token,
            ),
    {
        let mut actions: Vec<Action<S>> = Vec::new();
        self.writable_into(token, &mut actions);
        assert(Seq::<ActionView<S>>::empty() + writable_step(old(self)@, token).actions
            =~= writable_step(old(self)@, token).actions);
        actions
    }

    /// Takes the result of a write to the socket of `token`.
    ///
    /// The bytes that the socket took leave the queue; a partial write
    /// leaves the remainder queued. While a buffer remains and the write
    /// moved the queue on, the driver is asked to write on. Once the queue
    /// is empty the registration falls back to reading. A failed write
    /// closes the connection and tells the dispatcher so.
    pub fn written(&mut self, token: usize, result: WriteResult) -> (actions: Vec<Action<S>>)
        requires
            old(self).wf(),
        ensures
            final(self).wf(),
            (Step { state: final(self)@, actions: action_views(actions@) }) == written_step(
                old(self)@,
                token,
                result,
            ),
    {
        let mut actions: Vec<Action<S>> = Vec::new();
        let ghost none = Seq::<ActionView<S>>::empty();
        match result {
            WriteResult::Written(n) => {
                self.drain_into(token, n, &mut actions);
                assert(none + drain_step(old(self)@, token, n as nat).actions =~= drain_step(
                    old(self)@,
                    token,
                    n as nat,
                ).actions);
            },
            WriteResult::WouldBlock => {
                assert(action_views(actions@) =~= none);
            },
            WriteResult::Failed => {
                self.close_into(token, true, &mut actions);
                assert(none + close_step(old(self)@, token, true).actions =~= close_step(
                    old(self)@,
                    token,
                    true,
                ).actions);
            },
        }
        actions
    }

    /// Answers one event of the poll instance.
    ///
    /// The token of the control channel asks for one command to be taken
    /// from the channel. Any other token is looked up; one that the reactor
    /// does not have is passed over. An error or a hang-up closes the
    /// connection and tells the dispatcher. Else a readable socket is read
    /// and a writable one written.
    pub fn ready(&mut self, token: usize, readiness: Readiness) -> (actions: Vec<Action<S>>)
        requires
            old(self).wf(),
        ensures
            final(self).wf(),
            (Step { state: final(self)@, actions: action_views(actions@) }) == ready_step(
                old(self)@,
                token,
                readiness,
            ),
    {
        let mut actions: Vec<Action<S>> = Vec::new();
        let ghost none = Seq::<ActionView<S>>::empty();
        if token == READER_CHANNEL_TOKEN {
            actions.push(Action::ReceiveCommand);
            assert(action_views(actions@) =~= seq![ActionView::<S>::ReceiveCommand]);
        } else if !self.connections.contains(token) {
            assert(action_views(actions@) =~= none);
        } else if readiness.error || readiness.hup {
            self.close_into(token, true, &mut actions);
            assert(none + close_step(old(self)@, token, true).actions =~= close_step(
                old(self)@,
                token,
                true,
            ).actions);
        } else {
            if readiness.readable {
                actions.push(Action::Read { token });
            }
            let ghost reads = action_views(actions@);
            assert(reads =~= if readiness.readable {
                readable_step(old(self)@, token).actions
            } else {
                none
            });
            if readiness.writable {
                self.writable_into(token, &mut actions);
            } else {
                assert(reads + none =~= reads);
            }
        }
        actions
    }

    /// Answers one event as mio reports it: reads its token and its
    /// readiness and answers as `ready` does for them.
    pub fn handle_event(&mut self, event: mio::Event) -> (actions: Vec<Action<S>>)
        requires
            old(self).wf(),
        ensures
            final(self).wf(),
            (Step { state: final(self)@, actions: action_views(actions@) }) == ready_step(
                old(self)@,
                event_token_of(event),
                event_readiness_of(event),
            ),
    {
        let token = event_token(&event);
        let readiness = event_readiness(&event);
        self.ready(token, readiness)
    }
}

} // verus!
