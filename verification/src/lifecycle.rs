//! What holds of the life of a connection, whatever the events: the laws
//! that the rules of the reactor obey.

use crate::command::{
    ActionView, ReadResult, Readiness, TcpNetworkCMD, TcpNetworkCommandView, TcpReaderCMD,
    TcpReaderCommandView, WriteResult, READER_CHANNEL_TOKEN,
};
use crate::connection::{ConnectionView, Interest};
use crate::framing::{
    decode, decode_chunks, encode, has_frame, lemma_decode_encode, lemma_decode_rest,
    lemma_decode_split, lemma_framing_round_trip,
};
use crate::model::{
    after, close_all, close_step, data_step, drain_step, end_step, flush_step, handoff_all,
    handoff_step, notify_step, readable_step, ready_step, received_step, send_all, send_step,
    stay, unregistered_step, untouched, upgrade_step, writable_step, written_step, Step,
};
use crate::table::consistent;
use vstd::prelude::*;

verus! {

/// Idempotent close: closing a token that the table does not hold, one
/// that was never added or one that was closed before, changes nothing and
/// asks for nothing; no second notification follows a close.
pub proof fn lemma_close_idempotent<S>(
    state: Map<usize, ConnectionView<S>>,
    token: usize,
    first: bool,
    second: bool,
)
    ensures
        !state.contains_key(token) ==> close_step(state, token, first) == stay(state),
        !close_step(state, token, first).state.contains_key(token),
        close_step(close_step(state, token, first).state, token, second) == stay(
            close_step(state, token, first).state,
        ),
{
}

/// A close command asks for the release of the connections it closes and
/// for nothing else: no notification goes to the dispatcher.
pub proof fn lemma_requested_close_is_silent<S>(
    state: Map<usize, ConnectionView<S>>,
    tokens: Seq<usize>,
)
    ensures
        forall|i: int|
            0 <= i < close_all(state, tokens).actions.len() ==> (#[trigger] close_all(
                state,
                tokens,
            ).actions[i]) is Release,
    decreases tokens.len(),
{
    if tokens.len() > 0 {
        let first = close_step(state, tokens.last(), false);
        lemma_requested_close_is_silent(first.state, tokens.drop_last());
    }
}

/// A close command for a connection of the table releases it without a
/// notification, whereas an error or a hang-up of its socket, a failed read
/// or a failed write releases it and notifies the dispatcher that the
/// connection was closed. So does an end of stream, after the messages that
/// arrived before it have gone to the dispatcher.
pub proof fn lemma_close_notifies_of_socket_conditions_only<S>(
    state: Map<usize, ConnectionView<S>>,
    token: usize,
    readiness: Readiness,
)
    requires
        state.contains_key(token),
        token != READER_CHANNEL_TOKEN,
        readiness.error || readiness.hup,
    ensures
        close_all(state, seq![token]).actions == seq![
            ActionView::Release { connection: state[token] },
        ],
        ready_step(state, token, readiness).actions == seq![
            ActionView::Release { connection: state[token] },
            ActionView::Notify { command: TcpNetworkCommandView::connection_closed(token) },
        ],
        received_step(state, token, ReadResult::Failed) == ready_step(state, token, readiness),
        written_step(state, token, WriteResult::Failed) == ready_step(state, token, readiness),
        data_step(state, token, Seq::empty()).state == state.remove(token),
        data_step(state, token, Seq::empty()).actions == flush_step(state, token).actions + seq![
            ActionView::Release { connection: state[token].flushed() },
            ActionView::Notify { command: TcpNetworkCommandView::connection_closed(token) },
        ],
{
    let flushed = flush_step(state, token);
    assert(flushed.state[token] =~= state[token].flushed());
    assert(flushed.state.remove(token) =~= state.remove(token));
    reveal_with_fuel(close_all, 2);
    assert(seq![token].last() == token);
    assert(close_all(state, seq![token]).actions =~= seq![
        ActionView::Release { connection: state[token] },
    ]);
}

/// A close command leaves none of its tokens in the table, and adds none.
pub proof fn lemma_close_all_removes<S>(
    state: Map<usize, ConnectionView<S>>,
    tokens: Seq<usize>,
    token: usize,
)
    ensures
        tokens.contains(token) ==> !close_all(state, tokens).state.contains_key(token),
        !state.contains_key(token) ==> !close_all(state, tokens).state.contains_key(token),
    decreases tokens.len(),
{
    if tokens.len() > 0 {
        let first = close_step(state, tokens.last(), false);
        lemma_close_all_removes(first.state, tokens.drop_last(), token);
        if tokens.contains(token) && token != tokens.last() {
            let i = choose|i: int| 0 <= i < tokens.len() && tokens[i] == token;
            assert(tokens.drop_last()[i] == token);
        }
    }
}

/// A send command whose tokens are all absent from the table changes
/// nothing and asks for nothing.
pub proof fn lemma_send_to_absent<S>(
    state: Map<usize, ConnectionView<S>>,
    tokens: Seq<usize>,
    data: Seq<Seq<u8>>,
)
    requires
        forall|i: int| 0 <= i < tokens.len() ==> !state.contains_key(#[trigger] tokens[i]),
    ensures
        send_all(state, tokens, data) == stay(state),
    decreases tokens.len(),
{
    if tokens.len() > 0 && data.len() > 0 {
        assert(!state.contains_key(tokens[0]));
        assert forall|i: int| 0 <= i < tokens.drop_first().len() implies !state.contains_key(
            #[trigger] tokens.drop_first()[i],
        ) by {
            assert(tokens.drop_first()[i] == tokens[i + 1]);
        }
        lemma_send_to_absent(state, tokens.drop_first(), data.drop_first());
        assert(Seq::<ActionView<S>>::empty() + Seq::<ActionView<S>>::empty() =~= Seq::<
            ActionView<S>,
        >::empty());
    }
}

/// Send after close is silent: a send command whose tokens were all closed
/// by an earlier close command is ignored. The table stays as the close
/// left it, and no action is asked for.
pub proof fn lemma_send_after_close_is_silent<S>(
    state: Map<usize, ConnectionView<S>>,
    closed: Seq<usize>,
    tokens: Seq<usize>,
    data: Seq<Seq<u8>>,
)
    requires
        forall|i: int| 0 <= i < tokens.len() ==> closed.contains(#[trigger] tokens[i]),
    ensures
        send_all(close_all(state, closed).state, tokens, data) == stay(
            close_all(state, closed).state,
        ),
{
    let after_close = close_all(state, closed).state;
    assert forall|i: int| 0 <= i < tokens.len() implies !after_close.contains_key(
        #[trigger] tokens[i],
    ) by {
        lemma_close_all_removes(state, closed, tokens[i]);
    }
    lemma_send_to_absent(after_close, tokens, data);
}

/// The table after a run of commands, first command first.
pub open spec fn state_after<S>(
    state: Map<usize, ConnectionView<S>>,
    commands: Seq<TcpReaderCommandView<S>>,
) -> Map<usize, ConnectionView<S>>
    decreases commands.len(),
{
    if commands.len() == 0 {
        state
    } else {
        notify_step(state_after(state, commands.drop_last()), commands.last()).state
    }
}

/// Whether `command` is a handoff that names `token`.
pub open spec fn hands_off<S>(command: TcpReaderCommandView<S>, token: usize) -> bool {
    command.code == TcpReaderCMD::HandleNewConnection && command.token.contains(token)
}

/// A handoff adds no token but those it names.
pub proof fn lemma_handoff_adds_its_tokens_only<S>(
    state: Map<usize, ConnectionView<S>>,
    sockets: Seq<S>,
    tokens: Seq<usize>,
    token: usize,
)
    requires
        !state.contains_key(token),
        !tokens.contains(token),
    ensures
        !handoff_all(state, sockets, tokens).state.contains_key(token),
    decreases tokens.len(),
{
    if sockets.len() > 0 && tokens.len() > 0 {
        let first = handoff_step(state, sockets.last(), tokens.last());
        assert(tokens[tokens.len() - 1] != token);
        assert forall|i: int| 0 <= i < tokens.drop_last().len() implies tokens.drop_last()[i]
            != token by {
            assert(tokens.drop_last()[i] == tokens[i]);
        }
        lemma_handoff_adds_its_tokens_only(
            first.state,
            sockets.drop_last(),
            tokens.drop_last(),
            token,
        );
    }
}

/// A send command adds no token to the table and removes none.
pub proof fn lemma_send_keeps_tokens<S>(
    state: Map<usize, ConnectionView<S>>,
    tokens: Seq<usize>,
    data: Seq<Seq<u8>>,
    token: usize,
)
    ensures
        send_all(state, tokens, data).state.contains_key(token) == state.contains_key(token),
    decreases tokens.len(),
{
    if tokens.len() > 0 && data.len() > 0 {
        let first = send_step(state, tokens.first(), data.first());
        lemma_send_keeps_tokens(first.state, tokens.drop_first(), data.drop_first(), token);
    }
}

/// Only a handoff that names a token brings it into the table.
pub proof fn lemma_absent_stays_absent<S>(
    state: Map<usize, ConnectionView<S>>,
    command: TcpReaderCommandView<S>,
    token: usize,
)
    requires
        !state.contains_key(token),
        !hands_off(command, token),
    ensures
        !notify_step(state, command).state.contains_key(token),
{
    match command.code {
        TcpReaderCMD::HandleNewConnection => {
            lemma_handoff_adds_its_tokens_only(state, command.socket, command.token, token);
        },
        TcpReaderCMD::CloseConnection => {
            lemma_close_all_removes(state, command.token, token);
        },
        TcpReaderCMD::SendData => {
            lemma_send_keeps_tokens(state, command.token, command.data, token);
        },
    }
}

/// A token that a close command names stays out of the table through the
/// commands that follow, as long as none of them hands it off again.
pub proof fn lemma_closed_stays_closed<S>(
    state: Map<usize, ConnectionView<S>>,
    commands: Seq<TcpReaderCommandView<S>>,
    closing: int,
    upto: int,
    token: usize,
)
    requires
        0 <= closing < upto <= commands.len(),
        commands[closing].code == TcpReaderCMD::CloseConnection,
        commands[closing].token.contains(token),
        forall|k: int| closing < k < upto ==> !hands_off(#[trigger] commands[k], token),
    ensures
        !state_after(state, commands.take(upto)).contains_key(token),
    decreases upto,
{
    let run = commands.take(upto);
    let before = state_after(state, run.drop_last());
    assert(run.drop_last() =~= commands.take(upto - 1));
    assert(run.last() == commands[upto - 1]);
    if upto - 1 == closing {
        lemma_close_all_removes(before, commands[closing].token, token);
    } else {
        lemma_closed_stays_closed(state, commands, closing, upto - 1, token);
        lemma_absent_stays_absent(before, commands[upto - 1], token);
    }
}

/// Send after close is silent, in a run of commands: a send command for a
/// token that an earlier command of the run has closed, and none since has
/// handed off again, changes nothing and asks for nothing.
pub proof fn lemma_send_after_close_in_a_run<S>(
    state: Map<usize, ConnectionView<S>>,
    commands: Seq<TcpReaderCommandView<S>>,
    closing: int,
    sending: int,
    token: usize,
)
    requires
        0 <= closing < sending < commands.len(),
        commands[closing].code == TcpReaderCMD::CloseConnection,
        commands[closing].token.contains(token),
        forall|k: int| closing < k < sending ==> !hands_off(#[trigger] commands[k], token),
        commands[sending].code == TcpReaderCMD::SendData,
        forall|i: int|
            0 <= i < commands[sending].token.len() ==> #[trigger] commands[sending].token[i]
                == token,
    ensures
        notify_step(state_after(state, commands.take(sending)), commands[sending]) == stay(
            state_after(state, commands.take(sending)),
        ),
{
    lemma_closed_stays_closed(state, commands, closing, sending, token);
    lemma_send_to_absent(
        state_after(state, commands.take(sending)),
        commands[sending].token,
        commands[sending].data,
    );
}

/// The table after the socket of `token` delivered `chunks` one after the
/// other.
pub open spec fn read_chunks<S>(
    state: Map<usize, ConnectionView<S>>,
    token: usize,
    chunks: Seq<Seq<u8>>,
) -> Map<usize, ConnectionView<S>>
    decreases chunks.len(),
{
    if chunks.len() == 0 {
        state
    } else {
        read_chunks(data_step(state, token, chunks.first()).state, token, chunks.drop_first())
    }
}

/// Reading a stream in chunks leaves a connection as decoding the chunks
/// one after the other says: the completed messages wait in order behind
/// those received before, and the bytes of the unfinished frame stay pending.
pub proof fn lemma_read_chunks<S>(
    state: Map<usize, ConnectionView<S>>,
    token: usize,
    chunks: Seq<Seq<u8>>,
)
    requires
        state.contains_key(token),
        forall|i: int| 0 <= i < chunks.len() ==> (#[trigger] chunks[i]).len() > 0,
    ensures
        read_chunks(state, token, chunks) == state.insert(
            token,
            ConnectionView {
                pending: decode_chunks(state[token].pending, chunks).rest,
                received: state[token].received + decode_chunks(
                    state[token].pending,
                    chunks,
                ).messages,
                ..state[token]
            },
        ),
    decreases chunks.len(),
{
    let connection = state[token];
    if chunks.len() == 0 {
        assert(connection.received + Seq::<Seq<u8>>::empty() =~= connection.received);
        assert(state.insert(token, connection) =~= state);
    } else {
        let others = chunks.drop_first();
        let next = data_step(state, token, chunks.first()).state;
        assert(chunks[0].len() > 0);
        assert forall|i: int| 0 <= i < others.len() implies (#[trigger] others[i]).len() > 0 by {
            assert(others[i] == chunks[i + 1]);
        }
        lemma_read_chunks(next, token, others);
        let head = decode(connection.pending + chunks.first());
        let tail = decode_chunks(head.rest, others);
        assert((connection.received + head.messages) + tail.messages =~= connection.received + (
        head.messages + tail.messages));
        assert(read_chunks(state, token, chunks) =~= state.insert(
            token,
            ConnectionView {
                pending: decode_chunks(connection.pending, chunks).rest,
                received: connection.received + decode_chunks(connection.pending, chunks).messages,
                ..connection
            },
        ));
    }
}

/// Framing round trip, of a connection: when a peer writes messages with
/// the length prefix and the socket delivers them in fragments of any size,
/// then, once the socket has no more, the dispatcher is sent one
/// notification that holds exactly those messages, in their order. The
/// connection is left as it was, between two frames.
pub proof fn lemma_messages_arrive_as_sent<S>(
    state: Map<usize, ConnectionView<S>>,
    token: usize,
    payloads: Seq<Seq<u8>>,
    chunks: Seq<Seq<u8>>,
)
    requires
        state.contains_key(token),
        state[token].pending.len() == 0,
        state[token].received.len() == 0,
        payloads.len() > 0,
        forall|i: int| 0 <= i < payloads.len() ==> (#[trigger] payloads[i]).len() <= u32::MAX,
        forall|i: int| 0 <= i < chunks.len() ==> (#[trigger] chunks[i]).len() > 0,
        chunks.flatten() == encode(payloads),
    ensures
        flush_step(read_chunks(state, token, chunks), token) == (Step {
            state,
            actions: seq![
                ActionView::Notify { command: TcpNetworkCommandView::new_data(token, payloads) },
            ],
        }),
{
    let connection = state[token];
    lemma_read_chunks(state, token, chunks);
    assert(connection.pending =~= Seq::<u8>::empty());
    lemma_framing_round_trip(payloads, chunks);
    let read = read_chunks(state, token, chunks);
    assert(connection.received + payloads =~= payloads);
    assert(read[token].flushed() =~= connection);
    assert(read.insert(token, read[token].flushed()) =~= state);
}

/// The tokens whose sockets the poll instance knows once the driver has
/// carried out `actions`, when it knew those of `registered` before: a
/// registration adds a token, a release takes one away.
pub open spec fn registered_after<S>(registered: Set<usize>, actions: Seq<ActionView<S>>) -> Set<
    usize,
>
    decreases actions.len(),
{
    if actions.len() == 0 {
        registered
    } else {
        let before = registered_after(registered, actions.drop_last());
        match actions.last() {
            ActionView::Register { token } => before.insert(token),
            ActionView::Release { connection } => before.remove(connection.token),
            _ => before,
        }
    }
}

/// Carrying out two lists of actions one after the other is carrying out
/// the one list that they make.
pub proof fn lemma_registered_in_two_runs<S>(
    registered: Set<usize>,
    first: Seq<ActionView<S>>,
    second: Seq<ActionView<S>>,
)
    ensures
        registered_after(registered, first + second) == registered_after(
            registered_after(registered, first),
            second,
        ),
    decreases second.len(),
{
    if second.len() == 0 {
        assert(first + second =~= first);
    } else {
        lemma_registered_in_two_runs(registered, first, second.drop_last());
        assert((first + second).drop_last() =~= first + second.drop_last());
        assert((first + second).last() == second.last());
    }
}

/// A handoff of fresh tokens takes over every pair. Each socket is in the
/// table under the token paired with it, as a connection that has read and
/// queued nothing and has read interest alone, and its registration is asked
/// for, last pair first. What was in the table before stays as it was.
pub proof fn lemma_handoff_takes_over_each_pair<S>(
    state: Map<usize, ConnectionView<S>>,
    sockets: Seq<S>,
    tokens: Seq<usize>,
)
    requires
        sockets.len() == tokens.len(),
        forall|i: int| 0 <= i < tokens.len() ==> !state.contains_key(#[trigger] tokens[i]),
        forall|i: int, j: int| 0 <= i < j < tokens.len() ==> tokens[i] != tokens[j],
    ensures
        forall|k: int|
            0 <= k < tokens.len() ==> handoff_all(state, sockets, tokens).state.contains_key(
                #[trigger] tokens[k],
            ) && handoff_all(state, sockets, tokens).state[tokens[k]] == ConnectionView::fresh(
                sockets[k],
                tokens[k],
            ),
        forall|token: usize| #[trigger]
            state.contains_key(token) ==> handoff_all(state, sockets, tokens).state.contains_key(
                token,
            ) && handoff_all(state, sockets, tokens).state[token] == state[token],
        handoff_all(state, sockets, tokens).actions.len() == tokens.len(),
        forall|i: int|
            0 <= i < tokens.len() ==> #[trigger] handoff_all(state, sockets, tokens).actions[i]
                == (ActionView::<S>::Register { token: tokens[tokens.len() - 1 - i] }),
    decreases tokens.len(),
{
    if tokens.len() > 0 {
        let n = tokens.len() - 1;
        let first = handoff_step(state, sockets.last(), tokens.last());
        let fewer_sockets = sockets.drop_last();
        let fewer = tokens.drop_last();
        let rest = handoff_all(first.state, fewer_sockets, fewer);
        assert(!state.contains_key(tokens[n]));
        assert forall|i: int| 0 <= i < fewer.len() implies !first.state.contains_key(
            #[trigger] fewer[i],
        ) by {
            assert(fewer[i] == tokens[i]);
            assert(tokens[i] != tokens[n]);
        }
        assert forall|i: int, j: int| 0 <= i < j < fewer.len() implies fewer[i] != fewer[j] by {
            assert(fewer[i] == tokens[i] && fewer[j] == tokens[j]);
        }
        lemma_handoff_takes_over_each_pair(first.state, fewer_sockets, fewer);
        let whole = handoff_all(state, sockets, tokens);
        assert forall|k: int| 0 <= k < tokens.len() implies whole.state.contains_key(
            #[trigger] tokens[k],
        ) && whole.state[tokens[k]] == ConnectionView::fresh(sockets[k], tokens[k]) by {
            if k < n {
                assert(fewer[k] == tokens[k]);
                assert(fewer_sockets[k] == sockets[k]);
            } else {
                assert(first.state.contains_key(tokens[n]));
            }
        }
        assert forall|token: usize| #[trigger] state.contains_key(token) implies
            whole.state.contains_key(token) && whole.state[token] == state[token] by {
            assert(first.state.contains_key(token));
        }
        assert forall|i: int| 0 <= i < tokens.len() implies #[trigger] whole.actions[i] == (
        ActionView::<S>::Register { token: tokens[tokens.len() - 1 - i] }) by {
            if i > 0 {
                assert(whole.actions[i] == rest.actions[i - 1]);
                assert(fewer[fewer.len() - 1 - (i - 1)] == tokens[tokens.len() - 1 - i]);
            }
        }
    }
}

/// A handoff leaves the table and the poll instance in step.
pub proof fn lemma_handoff_keeps_registration_in_step<S>(
    state: Map<usize, ConnectionView<S>>,
    sockets: Seq<S>,
    tokens: Seq<usize>,
)
    requires
        consistent(state),
    ensures
        consistent(handoff_all(state, sockets, tokens).state),
        registered_after(state.dom(), handoff_all(state, sockets, tokens).actions) == handoff_all(
            state,
            sockets,
            tokens,
        ).state.dom(),
    decreases tokens.len(),
{
    if sockets.len() > 0 && tokens.len() > 0 {
        let first = handoff_step(state, sockets.last(), tokens.last());
        let rest = handoff_all(first.state, sockets.drop_last(), tokens.drop_last());
        lemma_steps_keep_consistency(state, tokens.last(), sockets.last(), Seq::empty(), 0, false);
        lemma_handoff_keeps_registration_in_step(
            first.state,
            sockets.drop_last(),
            tokens.drop_last(),
        );
        lemma_one_action(state.dom(), first.actions);
        lemma_registered_in_two_runs(state.dom(), first.actions, rest.actions);
        assert(registered_after(state.dom(), first.actions) =~= first.state.dom());
    }
}

/// A close command leaves the table and the poll instance in step.
pub proof fn lemma_close_keeps_registration_in_step<S>(
    state: Map<usize, ConnectionView<S>>,
    tokens: Seq<usize>,
)
    requires
        consistent(state),
    ensures
        consistent(close_all(state, tokens).state),
        registered_after(state.dom(), close_all(state, tokens).actions) == close_all(
            state,
            tokens,
        ).state.dom(),
    decreases tokens.len(),
{
    if tokens.len() > 0 {
        let first = close_step(state, tokens.last(), false);
        let rest = close_all(first.state, tokens.drop_last());
        lemma_close_keeps_registration_in_step(first.state, tokens.drop_last());
        lemma_one_action(state.dom(), first.actions);
        lemma_registered_in_two_runs(state.dom(), first.actions, rest.actions);
        assert(registered_after(state.dom(), first.actions) =~= first.state.dom());
    }
}

/// A send command leaves the table and the poll instance in step: it
/// registers and releases nothing.
pub proof fn lemma_send_keeps_registration_in_step<S>(
    state: Map<usize, ConnectionView<S>>,
    tokens: Seq<usize>,
    data: Seq<Seq<u8>>,
)
    requires
        consistent(state),
    ensures
        consistent(send_all(state, tokens, data).state),
        registered_after(state.dom(), send_all(state, tokens, data).actions) == send_all(
            state,
            tokens,
            data,
        ).state.dom(),
    decreases tokens.len(),
{
    if tokens.len() > 0 && data.len() > 0 {
        let first = send_step(state, tokens.first(), data.first());
        let rest = send_all(first.state, tokens.drop_first(), data.drop_first());
        lemma_steps_keep_consistency(state, tokens.first(), arbitrary(), data.first(), 0, false);
        lemma_send_keeps_registration_in_step(
            first.state,
            tokens.drop_first(),
            data.drop_first(),
        );
        lemma_one_action(state.dom(), first.actions);
        lemma_registered_in_two_runs(state.dom(), first.actions, rest.actions);
        assert(registered_after(state.dom(), first.actions) =~= first.state.dom());
    }
}

/// What lists of no, one or two actions do to the registered tokens.
pub proof fn lemma_one_action<S>(registered: Set<usize>, actions: Seq<ActionView<S>>)
    ensures
        actions.len() == 0 ==> registered_after(registered, actions) == registered,
        actions.len() == 1 ==> registered_after(registered, actions) == registered_after(
            registered,
            seq![actions[0]],
        ) && registered_after(registered, actions) == match actions[0] {
            ActionView::Register { token } => registered.insert(token),
            ActionView::Release { connection } => registered.remove(connection.token),
            _ => registered,
        },
        actions.len() == 2 ==> registered_after(registered, actions) == match actions[1] {
            ActionView::Register { token } => registered_after(
                registered,
                seq![actions[0]],
            ).insert(token),
            ActionView::Release { connection } => registered_after(
                registered,
                seq![actions[0]],
            ).remove(connection.token),
            _ => registered_after(registered, seq![actions[0]]),
        },
{
    reveal_with_fuel(registered_after, 3);
    if actions.len() == 1 {
        assert(actions =~= seq![actions[0]]);
        assert(actions.drop_last() =~= Seq::<ActionView<S>>::empty());
    }
    if actions.len() == 2 {
        assert(actions.drop_last() =~= seq![actions[0]]);
        assert(seq![actions[0]].drop_last() =~= Seq::<ActionView<S>>::empty());
    }
}

/// The table and the poll instance stay in step. A connection is in the
/// table if and only if its socket is registered: whatever the event, once
/// the driver has carried out the actions that the reactor asked for, the
/// registered tokens are the tokens of the table. A handoff registers what
/// it adds, every close releases what it removes, and the answer to a
/// failed registration takes out of the table what the poll instance
/// would not take.
pub proof fn lemma_table_is_what_is_registered<S>(
    state: Map<usize, ConnectionView<S>>,
    command: TcpReaderCommandView<S>,
    token: usize,
    flag: bool,
    readiness: Readiness,
    read: ReadResult,
    write: WriteResult,
)
    requires
        consistent(state),
    ensures
        in_step(state, notify_step(state, command)),
        in_step(state, close_step(state, token, flag)),
        in_step(state, upgrade_step(state, token)),
        in_step(state, unregistered_step(state, token)),
        in_step(state, readable_step(state, token)),
        in_step(state, received_step(state, token, read)),
        in_step(state, writable_step(state, token)),
        in_step(state, written_step(state, token, write)),
        in_step(state, ready_step(state, token, readiness)),
        !unregistered_step(state, token).state.contains_key(token),
{
    match command.code {
        TcpReaderCMD::HandleNewConnection => {
            lemma_handoff_keeps_registration_in_step(state, command.socket, command.token);
        },
        TcpReaderCMD::CloseConnection => {
            lemma_close_keeps_registration_in_step(state, command.token);
        },
        TcpReaderCMD::SendData => {
            lemma_send_keeps_registration_in_step(state, command.token, command.data);
        },
    }
    let registered = state.dom();
    lemma_in_step(state, close_step(state, token, flag));
    lemma_in_step(state, upgrade_step(state, token));
    lemma_in_step(state, unregistered_step(state, token));
    lemma_in_step(state, readable_step(state, token));
    lemma_in_step(state, writable_step(state, token));
    lemma_in_step(state, written_step(state, token, write));
    lemma_in_step(state, flush_step(state, token));
    match read {
        ReadResult::Data(bytes) => {
            if state.contains_key(token) && bytes@.len() == 0 {
                let flushed = flush_step(state, token);
                let closed = close_step(flushed.state, token, true);
                lemma_one_action(registered, flushed.actions);
                lemma_one_action(registered, closed.actions);
                lemma_one_action(registered, seq![closed.actions[0]]);
                lemma_registered_in_two_runs(registered, flushed.actions, closed.actions);
                assert(flushed.state.dom() =~= registered);
                assert(flushed.state[token].token == token);
                assert(closed.state.dom() =~= registered.remove(token));
                assert(registered_after(registered, flushed.actions) == registered);
                assert(registered_after(registered, closed.actions) == registered.remove(token));
            } else {
                lemma_in_step(state, data_step(state, token, bytes@));
            }
        },
        _ => {
            lemma_in_step(state, received_step(state, token, read));
        },
    }
    if token != READER_CHANNEL_TOKEN && state.contains_key(token) && !(readiness.error
        || readiness.hup) {
        let reads = if readiness.readable {
            readable_step(state, token).actions
        } else {
            Seq::empty()
        };
        let writes = if readiness.writable {
            writable_step(state, token)
        } else {
            stay(state)
        };
        lemma_one_action(registered, reads);
        lemma_registered_in_two_runs(registered, reads, writes.actions);
        lemma_one_action(registered, writes.actions);
        assert(writes.state.dom() =~= registered);
    } else {
        lemma_in_step(state, ready_step(state, token, readiness));
    }
}

/// Whether the poll instance knows exactly the tokens of the table after
/// `step`, when it knew exactly those of `before`.
pub open spec fn in_step<S>(before: Map<usize, ConnectionView<S>>, step: Step<S>) -> bool {
    registered_after(before.dom(), step.actions) == step.state.dom()
}

/// A step of at most two actions that removes what it releases and adds what
/// it registers leaves table and poll instance in step.
proof fn lemma_in_step<S>(before: Map<usize, ConnectionView<S>>, step: Step<S>)
    requires
        step.actions.len() <= 2,
        step.state.dom() =~= if step.actions.len() == 0 {
            before.dom()
        } else {
            match step.actions[0] {
                ActionView::Register { token } => before.dom().insert(token),
                ActionView::Release { connection } => before.dom().remove(connection.token),
                _ => before.dom(),
            }
        },
        step.actions.len() == 2 ==> !(step.actions[1] is Register) && !(step.actions[1] is Release),
    ensures
        in_step(before, step),
{
    lemma_one_action(before.dom(), step.actions);
    if step.actions.len() == 2 {
        lemma_one_action(before.dom(), seq![step.actions[0]]);
    }
}

/// What a read from a socket brings, short of a failure: bytes, or the
/// word that there are none for now.
pub enum ReadEvent {
    Data(Seq<u8>),
    WouldBlock,
}

/// The table and the actions after the reads from the socket of `token`
/// ended as `events` say, first read first.
pub open spec fn read_events<S>(
    state: Map<usize, ConnectionView<S>>,
    token: usize,
    events: Seq<ReadEvent>,
) -> Step<S>
    decreases events.len(),
{
    if events.len() == 0 {
        stay(state)
    } else {
        let before = read_events(state, token, events.drop_last());
        let last = match events.last() {
            ReadEvent::Data(bytes) => data_step(before.state, token, bytes),
            ReadEvent::WouldBlock => flush_step(before.state, token),
        };
        after(before.actions, last)
    }
}

/// The bytes that `events` bring, in their order.
pub open spec fn stream_of(events: Seq<ReadEvent>) -> Seq<u8>
    decreases events.len(),
{
    if events.len() == 0 {
        Seq::empty()
    } else {
        match events.last() {
            ReadEvent::Data(bytes) => stream_of(events.drop_last()) + bytes,
            ReadEvent::WouldBlock => stream_of(events.drop_last()),
        }
    }
}

/// Whether every read of `events` that brought bytes brought at least one:
/// none of them is an end of stream.
pub open spec fn goes_on(events: Seq<ReadEvent>) -> bool {
    forall|i: int|
        0 <= i < events.len() ==> match #[trigger] events[i] {
            ReadEvent::Data(bytes) => bytes.len() > 0,
            ReadEvent::WouldBlock => true,
        }
}

/// The messages that `actions` send to the dispatcher for `token`: the
/// payloads of the data notifications, one notification after the other.
pub open spec fn delivered<S>(actions: Seq<ActionView<S>>, token: usize) -> Seq<Seq<u8>>
    decreases actions.len(),
{
    if actions.len() == 0 {
        Seq::empty()
    } else {
        let before = delivered(actions.drop_last(), token);
        match actions.last() {
            ActionView::Notify { command } => if command.cmd == TcpNetworkCMD::HandleNewData
                && command.token == token {
                before + command.data
            } else {
                before
            },
            _ => before,
        }
    }
}

/// Messages are delivered as they were sent, however the stream is cut and
/// whenever the socket runs dry. After any run of reads, what the dispatcher
/// has been sent for a connection, followed by what the connection still
/// holds for it, is what was held at the start followed by the messages
/// that the bytes of the run complete, in the order of the stream; the
/// bytes of the unfinished frame are pending. Nothing is missing, repeated
/// or made up, and nothing else of the table changes.
pub proof fn lemma_reads_deliver_the_stream<S>(
    state: Map<usize, ConnectionView<S>>,
    token: usize,
    events: Seq<ReadEvent>,
)
    requires
        state.contains_key(token),
        !has_frame(state[token].pending),
        goes_on(events),
    ensures
        read_events(state, token, events).state.contains_key(token),
        read_events(state, token, events).state[token].pending == decode(
            state[token].pending + stream_of(events),
        ).rest,
        delivered(read_events(state, token, events).actions, token) + read_events(
            state,
            token,
            events,
        ).state[token].received == state[token].received + decode(
            state[token].pending + stream_of(events),
        ).messages,
        read_events(state, token, events).state == state.insert(
            token,
            ConnectionView {
                pending: read_events(state, token, events).state[token].pending,
                received: read_events(state, token, events).state[token].received,
                ..state[token]
            },
        ),
    decreases events.len(),
{
    let connection = state[token];
    if events.len() == 0 {
        assert(connection.pending + stream_of(events) =~= connection.pending);
        assert(Seq::<Seq<u8>>::empty() + connection.received =~= connection.received
            + Seq::<Seq<u8>>::empty());
        assert(state.insert(token, connection) =~= state);
    } else {
        let earlier = events.drop_last();
        assert forall|i: int| 0 <= i < earlier.len() implies match #[trigger] earlier[i] {
            ReadEvent::Data(bytes) => bytes.len() > 0,
            ReadEvent::WouldBlock => true,
        } by {
            assert(earlier[i] == events[i]);
        }
        lemma_reads_deliver_the_stream(state, token, earlier);
        let before = read_events(state, token, earlier);
        let held = before.state[token];
        let sent = delivered(before.actions, token);
        let seen = connection.pending + stream_of(earlier);
        match events.last() {
            ReadEvent::Data(bytes) => {
                assert(events[events.len() - 1] == events.last());
                assert(bytes.len() > 0);
                let last = data_step(before.state, token, bytes);
                let asked = before.actions + last.actions;
                assert(asked.drop_last() =~= before.actions);
                assert(asked.last() == ActionView::<S>::Read { token });
                lemma_decode_split(seen, bytes);
                assert(seen + bytes =~= connection.pending + stream_of(events));
                let more = decode(held.pending + bytes).messages;
                assert(delivered(asked, token) == sent);
                assert(last.state[token].received == held.received + more);
                assert(sent + (held.received + more) =~= (sent + held.received) + more);
                assert((connection.received + decode(seen).messages) + more
                    =~= connection.received + (decode(seen).messages + more));
                assert(last.state =~= state.insert(
                    token,
                    ConnectionView {
                        pending: last.state[token].pending,
                        received: last.state[token].received,
                        ..connection
                    },
                ));
            },
            ReadEvent::WouldBlock => {
                let last = flush_step(before.state, token);
                let asked = before.actions + last.actions;
                if held.received.len() == 0 {
                    assert(asked =~= before.actions);
                    assert(last.state[token] == held);
                } else {
                    assert(asked.drop_last() =~= before.actions);
                    assert(asked.last() == ActionView::<S>::Notify {
                        command: TcpNetworkCommandView::new_data(token, held.received),
                    });
                    assert(delivered(asked, token) == sent + held.received);
                    assert(last.state[token].received =~= Seq::<Seq<u8>>::empty());
                    assert((sent + held.received) + Seq::<Seq<u8>>::empty() =~= sent
                        + held.received);
                }
                assert(last.state =~= state.insert(
                    token,
                    ConnectionView {
                        pending: last.state[token].pending,
                        received: last.state[token].received,
                        ..connection
                    },
                ));
            },
        }
    }
}

/// Framing round trip, for any rhythm of delivery: when a peer writes
/// messages with the length prefix to a connection that stands between two
/// frames, and the socket hands the bytes over in fragments of any size,
/// running dry after any of them and at the end, then the data
/// notifications for the connection hold, taken together and in the order
/// sent, exactly the messages written, and the connection stands between
/// two frames again.
pub proof fn lemma_every_message_arrives_once<S>(
    state: Map<usize, ConnectionView<S>>,
    token: usize,
    payloads: Seq<Seq<u8>>,
    events: Seq<ReadEvent>,
)
    requires
        state.contains_key(token),
        state[token].pending.len() == 0,
        state[token].received.len() == 0,
        forall|i: int| 0 <= i < payloads.len() ==> (#[trigger] payloads[i]).len() <= u32::MAX,
        goes_on(events),
        events.len() > 0,
        events.last() is WouldBlock,
        stream_of(events) == encode(payloads),
    ensures
        delivered(read_events(state, token, events).actions, token) == payloads,
        read_events(state, token, events).state == state,
{
    let connection = state[token];
    lemma_reads_deliver_the_stream(state, token, events);
    lemma_decode_encode(payloads);
    assert(connection.pending + stream_of(events) =~= encode(payloads));
    let before = read_events(state, token, events.drop_last());
    let end = read_events(state, token, events);
    assert(end.state[token].received.len() == 0) by {
        if before.state.contains_key(token) && before.state[token].received.len() > 0 {
        }
    }
    assert(end.state[token].received =~= Seq::<Seq<u8>>::empty());
    assert(delivered(end.actions, token) + end.state[token].received =~= delivered(
        end.actions,
        token,
    ));
    assert(connection.received + payloads =~= payloads);
    assert(end.state[token] =~= connection);
    assert(state.insert(token, connection) =~= state);
}

/// Fragmentation changes the batches only: two connections that stand
/// between two frames and are handed the same bytes, cut in different ways,
/// have delivered the same messages in the same order once both sockets
/// have run dry. Only how the messages are spread over notifications may
/// differ.
pub proof fn lemma_fragmentation_changes_batches_only<S>(
    state: Map<usize, ConnectionView<S>>,
    one: usize,
    other: usize,
    burst: Seq<ReadEvent>,
    pieces: Seq<ReadEvent>,
)
    requires
        state.contains_key(one),
        state.contains_key(other),
        state[one].pending.len() == 0 && state[one].received.len() == 0,
        state[other].pending.len() == 0 && state[other].received.len() == 0,
        goes_on(burst) && burst.len() > 0 && burst.last() is WouldBlock,
        goes_on(pieces) && pieces.len() > 0 && pieces.last() is WouldBlock,
        stream_of(burst) == stream_of(pieces),
    ensures
        delivered(read_events(state, one, burst).actions, one) == delivered(
            read_events(state, other, pieces).actions,
            other,
        ),
        delivered(read_events(state, one, burst).actions, one) == decode(
            stream_of(burst),
        ).messages,
{
    lemma_reads_deliver_the_stream(state, one, burst);
    lemma_reads_deliver_the_stream(state, other, pieces);
    lemma_run_dry_holds_nothing(state, one, burst);
    lemma_run_dry_holds_nothing(state, other, pieces);
    let whole = decode(stream_of(burst)).messages;
    assert(state[one].pending + stream_of(burst) =~= stream_of(burst));
    assert(state[other].pending + stream_of(pieces) =~= stream_of(burst));
    let first = read_events(state, one, burst);
    let second = read_events(state, other, pieces);
    assert(delivered(first.actions, one) + first.state[one].received =~= delivered(
        first.actions,
        one,
    ));
    assert(delivered(second.actions, other) + second.state[other].received =~= delivered(
        second.actions,
        other,
    ));
    assert(state[one].received + whole =~= whole);
    assert(state[other].received + whole =~= whole);
}

/// After a read that found the socket dry, a connection holds no message
/// back from the dispatcher.
pub proof fn lemma_run_dry_holds_nothing<S>(
    state: Map<usize, ConnectionView<S>>,
    token: usize,
    events: Seq<ReadEvent>,
)
    requires
        events.len() > 0,
        events.last() is WouldBlock,
        read_events(state, token, events).state.contains_key(token),
    ensures
        read_events(state, token, events).state[token].received.len() == 0,
{
}

/// The payloads that a send command pairs with `token`, in the order of the
/// command.
pub open spec fn payloads_for(tokens: Seq<usize>, data: Seq<Seq<u8>>, token: usize) -> Seq<
    Seq<u8>,
>
    decreases tokens.len(),
{
    if tokens.len() == 0 || data.len() == 0 {
        Seq::empty()
    } else {
        let rest = payloads_for(tokens.drop_first(), data.drop_first(), token);
        if tokens.first() == token {
            seq![data.first()] + rest
        } else {
            rest
        }
    }
}

/// A send command appends to the queue of every connection of the table
/// exactly the payloads that it pairs with the token, empty ones too, in
/// the order of the command and behind what was queued before. A
/// connection that got a payload has read and write interest; nothing else
/// of it changes. What the command pairs with tokens that are not in the
/// table enters no queue. The command asks for reregistrations alone: it
/// registers nothing anew and sends the dispatcher nothing.
pub proof fn lemma_send_appends_in_batch_order<S>(
    state: Map<usize, ConnectionView<S>>,
    tokens: Seq<usize>,
    data: Seq<Seq<u8>>,
    token: usize,
)
    ensures
        send_all(state, tokens, data).state.dom() == state.dom(),
        state.contains_key(token) ==> send_all(state, tokens, data).state[token]
            == (ConnectionView {
            outbound: state[token].outbound + payloads_for(tokens, data, token),
            interest: if payloads_for(tokens, data, token).len() > 0 {
                Interest::ReadWrite
            } else {
                state[token].interest
            },
            ..state[token]
        }),
        forall|i: int|
            0 <= i < send_all(state, tokens, data).actions.len() ==> (#[trigger] send_all(
                state,
                tokens,
                data,
            ).actions[i]) is Reregister,
    decreases tokens.len(),
{
    if tokens.len() == 0 || data.len() == 0 {
        if state.contains_key(token) {
            assert(state[token].outbound + Seq::<Seq<u8>>::empty() =~= state[token].outbound);
        }
    } else {
        let first = send_step(state, tokens.first(), data.first());
        let rest_payloads = payloads_for(tokens.drop_first(), data.drop_first(), token);
        lemma_send_appends_in_batch_order(
            first.state,
            tokens.drop_first(),
            data.drop_first(),
            token,
        );
        assert(first.state.dom() =~= state.dom());
        if state.contains_key(token) {
            if tokens.first() == token {
                assert(state[token].outbound.push(data.first()) + rest_payloads
                    =~= state[token].outbound + (seq![data.first()] + rest_payloads));
            }
        }
    }
}

/// What a run of writes comes to: the table after it, the buffers that the
/// socket was offered and took, and the actions that were asked for.
#[verifier::ext_equal]
pub struct Drain<S> {
    pub state: Map<usize, ConnectionView<S>>,
    pub taken: Seq<Seq<u8>>,
    pub actions: Seq<ActionView<S>>,
}

/// Up to `count` writes to the socket of `token`, each of which takes the
/// whole of the output that it is offered.
pub open spec fn write_whole<S>(
    state: Map<usize, ConnectionView<S>>,
    token: usize,
    count: nat,
) -> Drain<S>
    decreases count,
{
    if count == 0 || !state.contains_key(token) || state[token].outbound.len() == 0 {
        Drain { state, taken: Seq::empty(), actions: Seq::empty() }
    } else {
        let buffer = state[token].outbound[0];
        let step = written_step(state, token, WriteResult::Written(buffer.len() as usize));
        let rest = write_whole(step.state, token, (count - 1) as nat);
        Drain {
            state: rest.state,
            taken: seq![buffer] + rest.taken,
            actions: step.actions + rest.actions,
        }
    }
}

/// The queue drains in order. When the socket of a connection with queued
/// buffers becomes writable, a write is asked for. If the socket takes all
/// it is offered, it is offered the buffers of the queue one by one, first
/// queued first, and after as many writes as there were buffers the queue is
/// empty and the interest has fallen back to reading. Up to the last write
/// each one asks for the next; the last asks for the registration to read.
/// The connection stays in the table with all else that it held, and the
/// dispatcher is sent nothing.
pub proof fn lemma_queue_drains_in_order<S>(state: Map<usize, ConnectionView<S>>, token: usize)
    requires
        state.contains_key(token),
        state[token].outbound.len() > 0,
        forall|i: int|
            0 <= i < state[token].outbound.len() ==> (#[trigger] state[token].outbound[i]).len()
                <= usize::MAX,
    ensures
        writable_step(state, token) == (Step { state, actions: seq![ActionView::Write { token }] }),
        write_whole(state, token, state[token].outbound.len()).taken == state[token].outbound,
        write_whole(state, token, state[token].outbound.len()).state == state.insert(
            token,
            ConnectionView { outbound: Seq::empty(), interest: Interest::Read, ..state[token] },
        ),
        write_whole(state, token, state[token].outbound.len()).actions.len()
            == state[token].outbound.len(),
        forall|i: int|
            0 <= i < state[token].outbound.len() - 1 ==> #[trigger] write_whole(
                state,
                token,
                state[token].outbound.len(),
            ).actions[i] == (ActionView::<S>::Write { token }),
        write_whole(state, token, state[token].outbound.len()).actions.last() == (ActionView::<
            S,
        >::Reregister { token, interest: Interest::Read }),
    decreases state[token].outbound.len(),
{
    let connection = state[token];
    let queue = connection.outbound;
    let buffer = queue[0];
    let step = written_step(state, token, WriteResult::Written(buffer.len() as usize));
    let rest = write_whole(step.state, token, (queue.len() - 1) as nat);
    let done = ConnectionView { outbound: Seq::empty(), interest: Interest::Read, ..connection };
    assert(step.state[token].outbound =~= queue.drop_first());
    if queue.len() == 1 {
        assert(step.state[token] =~= done);
        assert(seq![buffer] + rest.taken =~= queue);
        assert(step.actions + rest.actions =~= step.actions);
    } else {
        assert forall|i: int| 0 <= i < step.state[token].outbound.len() implies (
        #[trigger] step.state[token].outbound[i]).len() <= usize::MAX by {
            assert(step.state[token].outbound[i] == queue[i + 1]);
        }
        lemma_queue_drains_in_order(step.state, token);
        assert(seq![buffer] + queue.drop_first() =~= queue);
        assert(step.state.insert(
            token,
            ConnectionView {
                outbound: Seq::empty(),
                interest: Interest::Read,
                ..step.state[token]
            },
        ) =~= state.insert(token, done));
        let actions = step.actions + rest.actions;
        assert(step.actions == seq![ActionView::<S>::Write { token }]);
        assert forall|i: int| 0 <= i < queue.len() - 1 implies #[trigger] actions[i] == (
        ActionView::<S>::Write { token }) by {
            if i > 0 {
                assert(actions[i] == rest.actions[i - 1]);
            }
        }
        assert(actions.last() == rest.actions.last());
    }
}

/// Interest follows the queue. Queueing a payload on a connection, idle or
/// not, leaves it with read and write interest and asks for that
/// registration. A write that empties the queue leaves the connection with
/// read interest and asks for that registration; while bytes remain queued,
/// the interest stays read and write.
pub proof fn lemma_interest_follows_queue<S>(
    state: Map<usize, ConnectionView<S>>,
    token: usize,
    payload: Seq<u8>,
    n: nat,
)
    requires
        state.contains_key(token),
        state[token].wf(),
    ensures
        send_step(state, token, payload).state[token].interest == Interest::ReadWrite,
        send_step(state, token, payload).actions == seq![
            ActionView::<S>::Reregister { token, interest: Interest::ReadWrite },
        ],
        send_step(state, token, payload).state[token].outbound == state[token].outbound.push(
            payload,
        ),
        send_step(state, token, payload).state[token].wf(),
        drain_step(state, token, n).state[token].wf(),
        drain_step(state, token, n).state[token].outbound.len() == 0 ==> {
            &&& drain_step(state, token, n).state[token].interest == Interest::Read
            &&& drain_step(state, token, n).actions == seq![
                ActionView::<S>::Reregister { token, interest: Interest::Read },
            ]
        },
        drain_step(state, token, n).state[token].outbound.len() > 0 ==> {
            &&& drain_step(state, token, n).state[token].interest == Interest::ReadWrite
            &&& forall|i: int|
                0 <= i < drain_step(state, token, n).actions.len() ==> !(
                #[trigger] drain_step(state, token, n).actions[i] is Reregister)
        },
{
}

/// Connections are isolated: what happens to one token, be it a failure
/// that closes it, leaves every other connection of the table exactly as
/// it was.
pub proof fn lemma_steps_touch_one_connection<S>(
    state: Map<usize, ConnectionView<S>>,
    token: usize,
    other: usize,
    bytes: Seq<u8>,
    n: nat,
    flag: bool,
    readiness: Readiness,
    read: ReadResult,
    write: WriteResult,
)
    requires
        other != token,
    ensures
        untouched(state, close_step(state, token, flag).state, other),
        untouched(state, send_step(state, token, bytes).state, other),
        untouched(state, upgrade_step(state, token).state, other),
        untouched(state, unregistered_step(state, token).state, other),
        untouched(state, data_step(state, token, bytes).state, other),
        untouched(state, flush_step(state, token).state, other),
        untouched(state, end_step(state, token).state, other),
        untouched(state, drain_step(state, token, n).state, other),
        untouched(state, readable_step(state, token).state, other),
        untouched(state, writable_step(state, token).state, other),
        untouched(state, received_step(state, token, read).state, other),
        untouched(state, written_step(state, token, write).state, other),
        untouched(state, ready_step(state, token, readiness).state, other),
{
}

/// Every step keeps the table consistent: each connection stays under its
/// own token and stays well formed.
pub proof fn lemma_steps_keep_consistency<S>(
    state: Map<usize, ConnectionView<S>>,
    token: usize,
    socket: S,
    bytes: Seq<u8>,
    n: nat,
    flag: bool,
)
    requires
        consistent(state),
    ensures
        consistent(close_step(state, token, flag).state),
        consistent(handoff_step(state, socket, token).state),
        consistent(send_step(state, token, bytes).state),
        consistent(upgrade_step(state, token).state),
        consistent(unregistered_step(state, token).state),
        consistent(data_step(state, token, bytes).state),
        consistent(flush_step(state, token).state),
        consistent(drain_step(state, token, n).state),
{
    if state.contains_key(token) {
        lemma_interest_follows_queue(state, token, bytes, n);
        lemma_decode_rest(state[token].pending + bytes);
    }
    assert(!has_frame(Seq::<u8>::empty()));
}

} // verus!
