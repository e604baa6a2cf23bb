//! What the reactor exchanges with its surroundings: the commands of its
//! sibling threads, the notifications to the dispatcher, the events of its
//! sockets, and the actions it asks its driver to carry out.

use crate::connection::{Connection, ConnectionView, Interest};
use crate::framing::shared;
use std::sync::Arc;
use vstd::prelude::*;

verus! {

/// The token under which the control channel is registered with the poll
/// instance. Events with this token announce commands, not socket readiness,
/// so the acceptor gives it to no connection.
pub const READER_CHANNEL_TOKEN: usize = 1;

/// Size of the buffer that one read from a socket fills at most.
pub const READER_READ_BUFFER_SIZE: usize = 65000;

/// What a command asks of the reactor.
#[derive(Clone, Copy, Debug, PartialEq, Eq, Structural)]
pub enum TcpReaderCMD {
    /// Take over the sockets of `socket`, each under the token paired with it.
    HandleNewConnection,
    /// Close the connections of the tokens of `token`.
    CloseConnection,
    /// Queue each payload of `data` on the connection of the token paired
    /// with it.
    SendData,
}

/// A command to the reactor, sent by a sibling thread over the control
/// channel and consumed once.
#[derive(Debug)]
pub struct TcpReaderCommand<S> {
    /// What the command asks for.
    pub code: TcpReaderCMD,
    /// The sockets of a handoff.
    pub socket: Vec<S>,
    /// The tokens that the command speaks of.
    pub token: Vec<usize>,
    /// The payloads of a send, shared with whoever sent the command.
    pub data: Vec<Arc<Vec<u8>>>,
}

/// A command as contracts see it.
#[verifier::ext_equal]
pub struct TcpReaderCommandView<S> {
    pub code: TcpReaderCMD,
    pub socket: Seq<S>,
    pub token: Seq<usize>,
    pub data: Seq<Seq<u8>>,
}

impl<S> View for TcpReaderCommand<S> {
    type V = TcpReaderCommandView<S>;

    open spec fn view(&self) -> TcpReaderCommandView<S> {
        TcpReaderCommandView {
            code: self.code,
            socket: self.socket@,
            token: self.token@,
            data: shared(self.data@),
        }
    }
}

impl<S> TcpReaderCommand<S> {
    /// The handoff of `socket[i]` under `token[i]`, for every `i`.
    pub fn handle_new_connection(socket: Vec<S>, token: Vec<usize>) -> (command: Self)
        ensures
            command@ == (TcpReaderCommandView {
                code: TcpReaderCMD::HandleNewConnection,
                socket: socket@,
                token: token@,
                data: Seq::empty(),
            }),
    {
        let command = TcpReaderCommand {
            code: TcpReaderCMD::HandleNewConnection,
            socket,
            token,
            data: Vec::new(),
        };
        assert(command@.data =~= Seq::<Seq<u8>>::empty());
        command
    }

    /// The request to close the connections of `token`.
    pub fn close_connection(token: Vec<usize>) -> (command: Self)
        ensures
            command@ == (TcpReaderCommandView {
                code: TcpReaderCMD::CloseConnection,
                socket: Seq::<S>::empty(),
                token: token@,
                data: Seq::empty(),
            }),
    {
        let command = TcpReaderCommand {
            code: TcpReaderCMD::CloseConnection,
            socket: Vec::new(),
            token,
            data: Vec::new(),
        };
        assert(command@.data =~= Seq::<Seq<u8>>::empty());
        command
    }

    /// The request to write `data[i]` to the connection of `token[i]`, for
    /// every `i`.
    pub fn send_data(token: Vec<usize>, data: Vec<Arc<Vec<u8>>>) -> (command: Self)
        ensures
            command@ == (TcpReaderCommandView {
                code: TcpReaderCMD::SendData,
                socket: Seq::<S>::empty(),
                token: token@,
                data: shared(data@),
            }),
    {
        TcpReaderCommand { code: TcpReaderCMD::SendData, socket: Vec::new(), token, data }
    }
}

/// What a notification tells the dispatcher.
#[derive(Clone, Copy, Debug, PartialEq, Eq, Structural)]
pub enum TcpNetworkCMD {
    /// Complete messages arrived on a connection.
    HandleNewData,
    /// The reactor closed a connection on a condition of its socket.
    ConnectionClosed,
}

/// A notification from the reactor to the dispatcher.
#[derive(Debug, PartialEq, Eq)]
pub struct TcpNetworkCommand {
    /// What the notification tells.
    pub cmd: TcpNetworkCMD,
    /// The connection it speaks of.
    pub token: usize,
    /// The payloads of the messages, in the order of their arrival; empty
    /// for a closed connection.
    pub data: Vec<Arc<Vec<u8>>>,
}

/// A notification as contracts see it.
#[verifier::ext_equal]
pub struct TcpNetworkCommandView {
    pub cmd: TcpNetworkCMD,
    pub token: usize,
    pub data: Seq<Seq<u8>>,
}

impl View for TcpNetworkCommand {
    type V = TcpNetworkCommandView;

    open spec fn view(&self) -> TcpNetworkCommandView {
        TcpNetworkCommandView { cmd: self.cmd, token: self.token, data: shared(self.data@) }
    }
}

impl TcpNetworkCommandView {
    /// The notification that the connection of `token` was closed.
    pub open spec fn connection_closed(token: usize) -> Self {
        TcpNetworkCommandView { cmd: TcpNetworkCMD::ConnectionClosed, token, data: Seq::empty() }
    }

    /// The notification that `data` arrived on the connection of `token`.
    pub open spec fn new_data(token: usize, data: Seq<Seq<u8>>) -> Self {
        TcpNetworkCommandView { cmd: TcpNetworkCMD::HandleNewData, token, data }
    }
}

impl TcpNetworkCommand {
    /// The notification that the connection of `token` was closed.
    pub fn connection_closed(token: usize) -> (command: Self)
        ensures
            command@ == TcpNetworkCommandView::connection_closed(token),
    {
        let command = TcpNetworkCommand {
            cmd: TcpNetworkCMD::ConnectionClosed,
            token,
            data: Vec::new(),
        };
        assert(command@.data =~= Seq::<Seq<u8>>::empty());
        command
    }

    /// The notification that `data` arrived on the connection of `token`.
    pub fn new_data(token: usize, data: Vec<Arc<Vec<u8>>>) -> (command: Self)
        ensures
            command@ == TcpNetworkCommandView::new_data(token, shared(data@)),
    {
        TcpNetworkCommand { cmd: TcpNetworkCMD::HandleNewData, token, data }
    }
}

/// The readiness that the poll instance reports of a token.
#[derive(Clone, Copy, Debug, PartialEq, Eq, Structural)]
pub struct Readiness {
    pub readable: bool,
    pub writable: bool,
    pub error: bool,
    pub hup: bool,
}

/// How a read from a socket ended.
#[derive(Clone, Copy, Debug)]
pub enum ReadResult<'a> {
    /// The socket delivered these bytes. No bytes at all mean that the
    /// peer has closed the stream in good order.
    Data(&'a [u8]),
    /// The socket has nothing more to deliver for now.
    WouldBlock,
    /// The read failed.
    Failed,
}

/// How a write to a socket ended.
#[derive(Clone, Copy, Debug, PartialEq, Eq, Structural)]
pub enum WriteResult {
    /// The socket took this many bytes of the output it was offered.
    Written(usize),
    /// The socket takes nothing more for now.
    WouldBlock,
    /// The write failed.
    Failed,
}

/// What the reactor asks its driver to do. The driver carries the actions
/// out in the order in which it was given them. Every registration with the
/// poll instance is edge-triggered and stays armed after an event: none is
/// one-shot.
#[derive(Debug)]
pub enum Action<S> {
    /// Register the socket of `token` with the poll instance, for readable
    /// events. A failure to register stops the reactor.
    Register { token: usize },
    /// The handoff of `socket` was refused: `token` is already in the
    /// table. No correct acceptor causes this; the driver stops the reactor.
    Refuse { token: usize, socket: S },
    /// Change the registration of the socket of `token` to `interest`.
    Reregister { token: usize, interest: Interest },
    /// The connection has left the table: deregister its socket and drop it.
    Release { connection: Connection<S> },
    /// Send the notification to the dispatcher.
    Notify { command: TcpNetworkCommand },
    /// Take one command from the control channel, if one waits there, and
    /// hand it to the reactor.
    ReceiveCommand,
    /// Read from the socket of `token` and hand the result to the reactor.
    Read { token: usize },
    /// Write the output of `token` to its socket and hand the result to the
    /// reactor.
    Write { token: usize },
}

/// An action as contracts see it.
#[verifier::ext_equal]
pub enum ActionView<S> {
    Register { token: usize },
    Refuse { token: usize, socket: S },
    Reregister { token: usize, interest: Interest },
    Release { connection: ConnectionView<S> },
    Notify { command: TcpNetworkCommandView },
    ReceiveCommand,
    Read { token: usize },
    Write { token: usize },
}

impl<S> View for Action<S> {
    type V = ActionView<S>;

    open spec fn view(&self) -> ActionView<S> {
        match *self {
            Action::Register { token } => ActionView::Register { token },
            Action::Refuse { token, socket } => ActionView::Refuse { token, socket },
            Action::Reregister { token, interest } => ActionView::Reregister { token, interest },
            Action::Release { connection } => ActionView::Release { connection: connection@ },
            Action::Notify { command } => ActionView::Notify { command: command@ },
            Action::ReceiveCommand => ActionView::ReceiveCommand,
            Action::Read { token } => ActionView::Read { token },
            Action::Write { token } => ActionView::Write { token },
        }
    }
}

/// The views of a list of actions.
pub open spec fn action_views<S>(actions: Seq<Action<S>>) -> Seq<ActionView<S>> {
    Seq::new(actions.len(), |i: int| actions[i]@)
}

} // verus!
