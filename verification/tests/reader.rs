use tcp_reader::command::{
    Action, ReadResult, Readiness, TcpNetworkCMD, TcpNetworkCommand, TcpReaderCMD,
    TcpReaderCommand, WriteResult, READER_CHANNEL_TOKEN, READER_READ_BUFFER_SIZE,
};
use std::sync::Arc;
use tcp_reader::connection::Interest;
use tcp_reader::reader::TcpReader;

const READABLE: Readiness = Readiness { readable: true, writable: false, error: false, hup: false };
const WRITABLE: Readiness = Readiness { readable: false, writable: true, error: false, hup: false };
const BOTH: Readiness = Readiness { readable: true, writable: true, error: false, hup: false };
const ERROR: Readiness = Readiness { readable: false, writable: false, error: true, hup: false };
const HUP: Readiness = Readiness { readable: true, writable: false, error: false, hup: true };
const NOTHING: Readiness = Readiness { readable: false, writable: false, error: false, hup: false };

fn plain(list: &[Arc<Vec<u8>>]) -> Vec<Vec<u8>> {
    list.iter().map(|buffer| buffer.to_vec()).collect()
}

fn arcs(list: Vec<Vec<u8>>) -> Vec<Arc<Vec<u8>>> {
    list.into_iter().map(Arc::new).collect()
}

fn send_data<S>(tokens: Vec<usize>, data: Vec<Vec<u8>>) -> TcpReaderCommand<S> {
    TcpReaderCommand::send_data(tokens, arcs(data))
}

fn show(actions: &[Action<u32>]) -> Vec<String> {
    actions
        .iter()
        .map(|action| match action {
            Action::Register { token } => format!("register {}", token),
            Action::Refuse { token, socket } => format!("refuse {} socket {}", token, socket),
            Action::Reregister { token, interest: Interest::Read } => {
                format!("reregister {} read", token)
            }
            Action::Reregister { token, interest: Interest::ReadWrite } => {
                format!("reregister {} read+write", token)
            }
            Action::Release { connection } => {
                format!("release {} socket {}", connection.token(), connection.socket())
            }
            Action::Notify { command } => match command.cmd {
                TcpNetworkCMD::ConnectionClosed => format!("closed {}", command.token),
                TcpNetworkCMD::HandleNewData => {
                    let texts: Vec<String> = command
                        .data
                        .iter()
                        .map(|m| String::from_utf8_lossy(m).into_owned())
                        .collect();
                    format!("data {} {:?}", command.token, texts)
                }
            },
            Action::ReceiveCommand => String::from("receive command"),
            Action::Read { token } => format!("read {}", token),
            Action::Write { token } => format!("write {}", token),
        })
        .collect()
}

fn reader_with(tokens: &[usize]) -> TcpReader<u32> {
    let mut reader = TcpReader::new();
    for token in tokens {
        let sockets = vec![*token as u32 + 1000];
        reader.notify(TcpReaderCommand::handle_new_connection(sockets, vec![*token]));
    }
    reader
}

fn send(reader: &mut TcpReader<u32>, token: usize, payload: &[u8]) -> Vec<String> {
    show(&reader.notify(send_data(vec![token], vec![payload.to_vec()])))
}

#[test]
fn constants_of_the_reactor() {
    assert_eq!(READER_CHANNEL_TOKEN, 1);
    assert_eq!(READER_READ_BUFFER_SIZE, 65000);
}

#[test]
fn new_reader_has_no_connections() {
    let reader: TcpReader<u32> = TcpReader::new();
    assert_eq!(reader.len(), 0);
    assert!(reader.connection(5).is_none());
    assert!(reader.socket(5).is_none());
    assert!(reader.output(5).is_none());
}

#[test]
fn command_constructors_fill_the_fields() {
    let handoff = TcpReaderCommand::handle_new_connection(vec!['a'], vec![3]);
    assert_eq!(handoff.code, TcpReaderCMD::HandleNewConnection);
    assert_eq!(handoff.socket, vec!['a']);
    assert_eq!(handoff.token, vec![3]);
    assert!(handoff.data.is_empty());
    let close: TcpReaderCommand<char> = TcpReaderCommand::close_connection(vec![3, 4]);
    assert_eq!(close.code, TcpReaderCMD::CloseConnection);
    assert!(close.socket.is_empty());
    assert_eq!(close.token, vec![3, 4]);
    let send: TcpReaderCommand<char> = send_data(vec![3], vec![b"x".to_vec()]);
    assert_eq!(send.code, TcpReaderCMD::SendData);
    assert_eq!(send.token, vec![3]);
    assert_eq!(plain(&send.data), vec![b"x".to_vec()]);
}

#[test]
fn notification_constructors_fill_the_fields() {
    assert_eq!(
        TcpNetworkCommand::connection_closed(9),
        TcpNetworkCommand { cmd: TcpNetworkCMD::ConnectionClosed, token: 9, data: Vec::new() }
    );
    assert_eq!(
        TcpNetworkCommand::new_data(9, arcs(vec![b"m".to_vec()])),
        TcpNetworkCommand {
            cmd: TcpNetworkCMD::HandleNewData,
            token: 9,
            data: arcs(vec![b"m".to_vec()]),
        }
    );
}

#[test]
fn handoff_adds_and_registers_each_pair_last_first() {
    let mut reader = TcpReader::new();
    let actions = reader.notify(TcpReaderCommand::handle_new_connection(
        vec![10u32, 20, 30],
        vec![5, 6, 7],
    ));
    assert_eq!(show(&actions), vec!["register 7", "register 6", "register 5"]);
    assert_eq!(reader.len(), 3);
    assert_eq!(reader.socket(5), Some(&10));
    assert_eq!(reader.socket(6), Some(&20));
    assert_eq!(reader.socket(7), Some(&30));
    assert_eq!(reader.connection(6).unwrap().interest(), Interest::Read);
}

#[test]
fn handoff_pairs_from_the_back_of_uneven_lists() {
    let mut reader = TcpReader::new();
    let actions = reader.notify(TcpReaderCommand::handle_new_connection(
        vec![10u32, 20, 30],
        vec![5, 6],
    ));
    assert_eq!(show(&actions), vec!["register 6", "register 5"]);
    assert_eq!(reader.socket(6), Some(&30));
    assert_eq!(reader.socket(5), Some(&20));
    assert_eq!(reader.len(), 2);
}

#[test]
fn handoff_without_tokens_does_nothing() {
    let mut reader = TcpReader::new();
    let actions = reader.notify(TcpReaderCommand::handle_new_connection(vec![10u32], vec![]));
    assert!(actions.is_empty());
    assert_eq!(reader.len(), 0);
}

#[test]
fn handoff_of_a_present_token_is_refused() {
    let mut reader = reader_with(&[5]);
    let actions =
        reader.notify(TcpReaderCommand::handle_new_connection(vec![77u32, 88], vec![5, 6]));
    assert_eq!(show(&actions), vec!["register 6", "refuse 5 socket 77"]);
    assert_eq!(reader.socket(5), Some(&1005));
    assert_eq!(reader.socket(6), Some(&88));
}

#[test]
fn handoff_of_a_token_twice_in_one_command_refuses_the_second() {
    let mut reader = TcpReader::new();
    let actions = reader.notify(TcpReaderCommand::handle_new_connection(vec![1u32, 2], vec![9, 9]));
    assert_eq!(show(&actions), vec!["register 9", "refuse 9 socket 1"]);
    assert_eq!(reader.socket(9), Some(&2));
}

#[test]
fn close_command_releases_without_notification() {
    let mut reader = reader_with(&[5, 6]);
    let actions = reader.notify(TcpReaderCommand::close_connection(vec![5]));
    assert_eq!(show(&actions), vec!["release 5 socket 1005"]);
    assert!(reader.connection(5).is_none());
    assert_eq!(reader.socket(6), Some(&1006));
}

#[test]
fn close_command_closes_its_tokens_last_first() {
    let mut reader = reader_with(&[5, 6, 7]);
    let actions = reader.notify(TcpReaderCommand::close_connection(vec![5, 8, 7]));
    assert_eq!(show(&actions), vec!["release 7 socket 1007", "release 5 socket 1005"]);
    assert_eq!(reader.len(), 1);
}

#[test]
fn close_twice_does_nothing_the_second_time() {
    let mut reader = reader_with(&[5]);
    assert_eq!(show(&reader.close_connection(5, true)), vec!["release 5 socket 1005", "closed 5"]);
    assert!(reader.close_connection(5, true).is_empty());
    assert!(reader.close_connection(5, false).is_empty());
    assert!(reader.notify(TcpReaderCommand::close_connection(vec![5, 5])).is_empty());
}

#[test]
fn close_of_a_token_never_added_does_nothing() {
    let mut reader = reader_with(&[5]);
    assert!(reader.close_connection(6, true).is_empty());
    assert!(reader.close_connection(6, false).is_empty());
    assert_eq!(reader.len(), 1);
}

#[test]
fn close_command_naming_a_token_twice_releases_once() {
    let mut reader = reader_with(&[5]);
    let actions = reader.notify(TcpReaderCommand::close_connection(vec![5, 5]));
    assert_eq!(show(&actions), vec!["release 5 socket 1005"]);
}

#[test]
fn socket_error_closes_and_notifies() {
    let mut reader = reader_with(&[5]);
    let actions = reader.ready(5, ERROR);
    assert_eq!(show(&actions), vec!["release 5 socket 1005", "closed 5"]);
    assert!(reader.connection(5).is_none());
}

#[test]
fn hang_up_closes_and_notifies_even_if_readable() {
    let mut reader = reader_with(&[5]);
    assert_eq!(show(&reader.ready(5, HUP)), vec!["release 5 socket 1005", "closed 5"]);
}

#[test]
fn socket_error_after_a_close_command_is_not_notified() {
    let mut reader = reader_with(&[5]);
    reader.notify(TcpReaderCommand::close_connection(vec![5]));
    assert!(reader.ready(5, ERROR).is_empty());
}

#[test]
fn send_queues_the_payload_and_asks_for_write_interest() {
    let mut reader = reader_with(&[5]);
    assert_eq!(reader.connection(5).unwrap().interest(), Interest::Read);
    assert_eq!(send(&mut reader, 5, b"out"), vec!["reregister 5 read+write"]);
    assert_eq!(reader.connection(5).unwrap().interest(), Interest::ReadWrite);
    assert_eq!(reader.output(5), Some(&b"out"[..]));
}

#[test]
fn send_pairs_tokens_and_payloads_in_order() {
    let mut reader = reader_with(&[5, 6]);
    let actions = reader.notify(send_data(
        vec![5, 6, 5],
        vec![b"a".to_vec(), b"b".to_vec(), b"c".to_vec()],
    ));
    assert_eq!(
        show(&actions),
        vec!["reregister 5 read+write", "reregister 6 read+write", "reregister 5 read+write"]
    );
    assert_eq!(reader.connection(5).unwrap().queued(), 2);
    assert_eq!(reader.output(5), Some(&b"a"[..]));
    reader.written(5, WriteResult::Written(1));
    assert_eq!(reader.output(5), Some(&b"c"[..]));
    assert_eq!(reader.output(6), Some(&b"b"[..]));
}

#[test]
fn send_stops_with_the_shorter_list() {
    let mut reader = reader_with(&[5, 6]);
    let actions = reader.notify(send_data(vec![5, 6], vec![b"a".to_vec()]));
    assert_eq!(show(&actions), vec!["reregister 5 read+write"]);
    assert!(reader.output(6).is_none());
    let none = reader.notify(send_data(vec![5, 6], vec![]));
    assert!(none.is_empty());
}

#[test]
fn send_to_an_unknown_token_is_ignored() {
    let mut reader = reader_with(&[5]);
    assert!(send(&mut reader, 6, b"lost").is_empty());
    assert_eq!(reader.len(), 1);
    assert_eq!(reader.connection(5).unwrap().queued(), 0);
}

#[test]
fn send_after_close_is_ignored() {
    let mut reader = reader_with(&[5, 6]);
    reader.notify(TcpReaderCommand::close_connection(vec![5]));
    let actions = reader.notify(send_data(
        vec![5, 6],
        vec![b"late".to_vec(), b"fine".to_vec()],
    ));
    assert_eq!(show(&actions), vec!["reregister 6 read+write"]);
    assert!(reader.connection(5).is_none());
    assert_eq!(reader.len(), 1);
    assert_eq!(reader.output(6), Some(&b"fine"[..]));
}

#[test]
fn make_writable_raises_interest_of_a_present_token() {
    let mut reader = reader_with(&[5]);
    assert_eq!(show(&reader.make_writable(5)), vec!["reregister 5 read+write"]);
    assert_eq!(reader.connection(5).unwrap().interest(), Interest::ReadWrite);
    assert_eq!(reader.connection(5).unwrap().queued(), 0);
    assert!(reader.make_writable(6).is_empty());
}

#[test]
fn writable_with_output_asks_for_a_write() {
    let mut reader = reader_with(&[5]);
    send(&mut reader, 5, b"out");
    assert_eq!(show(&reader.ready(5, WRITABLE)), vec!["write 5"]);
    assert_eq!(show(&reader.writable(5)), vec!["write 5"]);
    assert_eq!(reader.connection(5).unwrap().interest(), Interest::ReadWrite);
}

#[test]
fn writable_without_output_lowers_interest() {
    let mut reader = reader_with(&[5]);
    reader.make_writable(5);
    assert_eq!(show(&reader.ready(5, WRITABLE)), vec!["reregister 5 read"]);
    assert_eq!(reader.connection(5).unwrap().interest(), Interest::Read);
}

#[test]
fn interest_rises_with_a_send_and_falls_when_the_queue_drains() {
    let mut reader = reader_with(&[5]);
    send(&mut reader, 5, b"abcd");
    send(&mut reader, 5, b"ef");
    assert_eq!(show(&reader.ready(5, WRITABLE)), vec!["write 5"]);
    assert_eq!(show(&reader.written(5, WriteResult::Written(3))), vec!["write 5"]);
    assert_eq!(reader.output(5), Some(&b"d"[..]));
    assert_eq!(show(&reader.written(5, WriteResult::Written(1))), vec!["write 5"]);
    assert_eq!(reader.output(5), Some(&b"ef"[..]));
    assert_eq!(reader.connection(5).unwrap().interest(), Interest::ReadWrite);
    assert_eq!(show(&reader.written(5, WriteResult::Written(2))), vec!["reregister 5 read"]);
    assert_eq!(reader.connection(5).unwrap().interest(), Interest::Read);
    assert!(reader.output(5).is_none());
}

#[test]
fn blocked_write_keeps_the_output_and_the_interest() {
    let mut reader = reader_with(&[5]);
    send(&mut reader, 5, b"abcd");
    assert_eq!(show(&reader.written(5, WriteResult::Written(1))), vec!["write 5"]);
    assert!(reader.written(5, WriteResult::WouldBlock).is_empty());
    assert_eq!(reader.output(5), Some(&b"bcd"[..]));
    assert_eq!(reader.connection(5).unwrap().interest(), Interest::ReadWrite);
}

#[test]
fn write_that_takes_nothing_waits_for_the_next_event() {
    let mut reader = reader_with(&[5]);
    send(&mut reader, 5, b"abcd");
    assert!(reader.written(5, WriteResult::Written(0)).is_empty());
    assert_eq!(reader.output(5), Some(&b"abcd"[..]));
}

#[test]
fn failed_write_closes_and_notifies() {
    let mut reader = reader_with(&[5]);
    send(&mut reader, 5, b"abcd");
    assert_eq!(
        show(&reader.written(5, WriteResult::Failed)),
        vec!["release 5 socket 1005", "closed 5"]
    );
    assert!(reader.connection(5).is_none());
}

#[test]
fn write_results_for_an_unknown_token_are_ignored() {
    let mut reader = reader_with(&[5]);
    assert!(reader.writable(6).is_empty());
    assert!(reader.written(6, WriteResult::Written(3)).is_empty());
    assert!(reader.written(6, WriteResult::Failed).is_empty());
    assert_eq!(reader.len(), 1);
}

#[test]
fn control_channel_token_asks_for_one_command() {
    let mut reader = reader_with(&[5]);
    assert_eq!(show(&reader.ready(READER_CHANNEL_TOKEN, READABLE)), vec!["receive command"]);
    assert_eq!(reader.len(), 1);
}

#[test]
fn event_for_an_unknown_token_is_ignored() {
    let mut reader = reader_with(&[5]);
    assert!(reader.ready(6, READABLE).is_empty());
    assert!(reader.ready(6, ERROR).is_empty());
    assert!(reader.readable(6).is_empty());
}

#[test]
fn event_without_readiness_asks_for_nothing() {
    let mut reader = reader_with(&[5]);
    assert!(reader.ready(5, NOTHING).is_empty());
}

#[test]
fn readable_and_writable_asks_for_both() {
    let mut reader = reader_with(&[5]);
    send(&mut reader, 5, b"out");
    assert_eq!(show(&reader.ready(5, BOTH)), vec!["read 5", "write 5"]);
}

#[test]
fn readable_asks_for_a_read() {
    let mut reader = reader_with(&[5]);
    assert_eq!(show(&reader.ready(5, READABLE)), vec!["read 5"]);
    assert_eq!(show(&reader.readable(5)), vec!["read 5"]);
}

#[test]
fn message_in_two_fragments_gives_one_notification() {
    let mut reader = TcpReader::new();
    let token = 7;
    reader.notify(TcpReaderCommand::handle_new_connection(vec![0u32], vec![token]));
    let mut seen = Vec::new();
    seen.extend(show(&reader.ready(token, READABLE)));
    seen.extend(show(&reader.received(token, ReadResult::Data(b"\x00\x00"))));
    seen.extend(show(&reader.received(token, ReadResult::WouldBlock)));
    seen.extend(show(&reader.ready(token, READABLE)));
    seen.extend(show(&reader.received(token, ReadResult::Data(b"\x00\x05hello"))));
    seen.extend(show(&reader.received(token, ReadResult::WouldBlock)));
    assert_eq!(
        seen,
        vec!["read 7", "read 7", "read 7", "read 7", "data 7 [\"hello\"]"]
    );
    assert!(reader.received(token, ReadResult::WouldBlock).is_empty());
}

#[test]
fn message_in_two_fragments_of_one_wake_gives_one_notification() {
    let mut reader = reader_with(&[7]);
    reader.received(7, ReadResult::Data(b"\x00\x00"));
    reader.received(7, ReadResult::Data(b"\x00\x05hello"));
    let actions = reader.received(7, ReadResult::WouldBlock);
    assert_eq!(actions.len(), 1);
    match &actions[0] {
        Action::Notify { command } => {
            assert_eq!(command.cmd, TcpNetworkCMD::HandleNewData);
            assert_eq!(command.token, 7);
            assert_eq!(plain(&command.data), vec![b"hello".to_vec()]);
        }
        other => panic!("unexpected action {:?}", other),
    }
}

#[test]
fn messages_of_one_wake_go_out_as_one_batch_in_order() {
    let mut reader = reader_with(&[7]);
    reader.received(7, ReadResult::Data(b"\x00\x00\x00\x01a\x00\x00\x00\x01b\x00\x00"));
    reader.received(7, ReadResult::Data(b"\x00\x01c\x00\x00\x00\x03d"));
    assert_eq!(
        show(&reader.received(7, ReadResult::WouldBlock)),
        vec!["data 7 [\"a\", \"b\", \"c\"]"]
    );
    reader.received(7, ReadResult::Data(b"ef"));
    assert_eq!(show(&reader.received(7, ReadResult::WouldBlock)), vec!["data 7 [\"def\"]"]);
}

#[test]
fn connections_decode_their_streams_apart() {
    let mut reader = reader_with(&[7, 8]);
    reader.received(7, ReadResult::Data(b"\x00\x00\x00\x02s"));
    reader.received(8, ReadResult::Data(b"\x00\x00\x00\x03e"));
    reader.received(7, ReadResult::Data(b"7"));
    reader.received(8, ReadResult::Data(b"ig"));
    assert_eq!(show(&reader.received(8, ReadResult::WouldBlock)), vec!["data 8 [\"eig\"]"]);
    assert_eq!(show(&reader.received(7, ReadResult::WouldBlock)), vec!["data 7 [\"s7\"]"]);
}

#[test]
fn end_of_stream_closes_and_notifies() {
    let mut reader = reader_with(&[7]);
    assert_eq!(
        show(&reader.received(7, ReadResult::Data(b""))),
        vec!["release 7 socket 1007", "closed 7"]
    );
    assert!(reader.connection(7).is_none());
}

#[test]
fn failed_read_closes_and_drops_the_batch() {
    let mut reader = reader_with(&[7]);
    reader.received(7, ReadResult::Data(b"\x00\x00\x00\x01a"));
    assert_eq!(
        show(&reader.received(7, ReadResult::Failed)),
        vec!["release 7 socket 1007", "closed 7"]
    );
    assert!(reader.received(7, ReadResult::WouldBlock).is_empty());
}

#[test]
fn read_results_for_an_unknown_token_are_ignored() {
    let mut reader = reader_with(&[5]);
    assert!(reader.received(6, ReadResult::Data(b"\x00\x00\x00\x00")).is_empty());
    assert!(reader.received(6, ReadResult::Data(b"")).is_empty());
    assert!(reader.received(6, ReadResult::WouldBlock).is_empty());
    assert!(reader.received(6, ReadResult::Failed).is_empty());
    assert_eq!(reader.len(), 1);
}

#[test]
fn failure_of_one_connection_leaves_the_others() {
    let mut reader = reader_with(&[5, 6, 7]);
    reader.received(6, ReadResult::Data(b"\x00\x00\x00\x02o"));
    send(&mut reader, 7, b"out");
    reader.ready(5, ERROR);
    assert_eq!(reader.len(), 2);
    reader.received(6, ReadResult::Data(b"k"));
    assert_eq!(show(&reader.received(6, ReadResult::WouldBlock)), vec!["data 6 [\"ok\"]"]);
    assert_eq!(reader.output(7), Some(&b"out"[..]));
}

#[test]
fn send_after_close_stays_ignored_through_other_commands() {
    let mut reader = reader_with(&[5, 6]);
    reader.notify(TcpReaderCommand::close_connection(vec![5]));
    reader.notify(send_data(vec![6], vec![b"x".to_vec()]));
    reader.notify(TcpReaderCommand::handle_new_connection(vec![77u32], vec![7]));
    reader.notify(TcpReaderCommand::close_connection(vec![6]));
    let actions = reader.notify(send_data(
        vec![5, 5],
        vec![b"late".to_vec(), b"later".to_vec()],
    ));
    assert!(actions.is_empty());
    assert_eq!(reader.len(), 1);
    assert_eq!(reader.connection(7).unwrap().queued(), 0);
}

#[test]
fn handoff_after_close_brings_the_token_back_fresh() {
    let mut reader = reader_with(&[5]);
    send(&mut reader, 5, b"old");
    reader.received(5, ReadResult::Data(b"\x00\x00"));
    reader.notify(TcpReaderCommand::close_connection(vec![5]));
    let actions = reader.notify(TcpReaderCommand::handle_new_connection(vec![9u32], vec![5]));
    assert_eq!(show(&actions), vec!["register 5"]);
    let connection = reader.connection(5).unwrap();
    assert_eq!(*connection.socket(), 9);
    assert_eq!(connection.queued(), 0);
    assert_eq!(connection.interest(), Interest::Read);
    reader.received(5, ReadResult::Data(b"\x00\x00\x00\x01n"));
    assert_eq!(show(&reader.received(5, ReadResult::WouldBlock)), vec!["data 5 [\"n\"]"]);
}

#[test]
fn stream_in_fragments_of_any_size_arrives_as_sent() {
    let payloads: Vec<&[u8]> = vec![b"alpha", b"", b"b", b"gamma delta"];
    let mut stream = Vec::new();
    for payload in &payloads {
        stream.extend(tcp_reader::framing::encode_message(payload).unwrap());
    }
    for size in 1..=stream.len() {
        let mut reader = reader_with(&[7]);
        for chunk in stream.chunks(size) {
            assert_eq!(show(&reader.received(7, ReadResult::Data(chunk))), vec!["read 7"]);
        }
        assert_eq!(
            show(&reader.received(7, ReadResult::WouldBlock)),
            vec!["data 7 [\"alpha\", \"\", \"b\", \"gamma delta\"]"]
        );
        assert!(reader.received(7, ReadResult::WouldBlock).is_empty());
    }
}

#[test]
fn released_connection_carries_what_it_held() {
    let mut reader = reader_with(&[5]);
    send(&mut reader, 5, b"unsent");
    let actions = reader.close_connection(5, false);
    assert_eq!(actions.len(), 1);
    match &actions[0] {
        Action::Release { connection } => {
            assert_eq!(connection.token(), 5);
            assert_eq!(*connection.socket(), 1005);
            assert_eq!(connection.output(), Some(&b"unsent"[..]));
        }
        other => panic!("unexpected action {:?}", other),
    }
}

#[test]
fn end_of_stream_delivers_what_arrived_before_it_closes() {
    let mut reader = reader_with(&[7]);
    reader.received(7, ReadResult::Data(b"\x00\x00\x00\x03bye\x00\x00"));
    assert_eq!(
        show(&reader.received(7, ReadResult::Data(b""))),
        vec!["data 7 [\"bye\"]", "release 7 socket 1007", "closed 7"]
    );
    assert!(reader.connection(7).is_none());
    assert!(reader.received(7, ReadResult::Data(b"")).is_empty());
}

fn queue_of(reader: &mut TcpReader<u32>, token: usize) -> Vec<Vec<u8>> {
    let mut queue = Vec::new();
    while let Some(bytes) = reader.output(token) {
        let buffer = bytes.to_vec();
        reader.written(token, WriteResult::Written(buffer.len()));
        queue.push(buffer);
    }
    queue
}

#[test]
fn send_of_an_empty_payload_queues_it() {
    let mut reader = reader_with(&[5]);
    assert_eq!(send(&mut reader, 5, b""), vec!["reregister 5 read+write"]);
    assert_eq!(reader.connection(5).unwrap().queued(), 1);
    assert_eq!(reader.output(5), Some(&b""[..]));
    assert_eq!(reader.connection(5).unwrap().interest(), Interest::ReadWrite);
}

#[test]
fn send_to_an_absent_and_a_present_token_queues_for_the_present_one_only() {
    for payload in [&b"dB"[..], &b""[..]] {
        let mut reader = reader_with(&[4, 6]);
        send(&mut reader, 6, b"q");
        reader.notify(TcpReaderCommand::close_connection(vec![4]));
        let actions = reader.notify(send_data(
            vec![4, 6],
            vec![b"dA".to_vec(), payload.to_vec()],
        ));
        assert_eq!(show(&actions), vec!["reregister 6 read+write"]);
        assert!(reader.connection(4).is_none());
        assert_eq!(reader.len(), 1);
        assert_eq!(queue_of(&mut reader, 6), vec![b"q".to_vec(), payload.to_vec()]);
    }
}

#[test]
fn send_to_an_idle_connection_queues_every_payload_in_batch_order() {
    let mut reader = reader_with(&[5, 6]);
    assert_eq!(reader.connection(5).unwrap().interest(), Interest::Read);
    let actions = reader.notify(send_data(
        vec![5, 5, 6, 5, 5],
        vec![b"d1".to_vec(), Vec::new(), b"x".to_vec(), b"d3".to_vec(), Vec::new()],
    ));
    assert_eq!(actions.len(), 5);
    assert_eq!(reader.len(), 2);
    assert_eq!(reader.connection(5).unwrap().interest(), Interest::ReadWrite);
    assert_eq!(
        queue_of(&mut reader, 5),
        vec![b"d1".to_vec(), Vec::new(), b"d3".to_vec(), Vec::new()]
    );
    assert_eq!(queue_of(&mut reader, 6), vec![b"x".to_vec()]);
}

#[test]
fn write_of_an_empty_buffer_moves_the_queue_on() {
    let mut reader = reader_with(&[5]);
    send(&mut reader, 5, b"a");
    send(&mut reader, 5, b"");
    send(&mut reader, 5, b"");
    send(&mut reader, 5, b"b");
    assert_eq!(show(&reader.ready(5, WRITABLE)), vec!["write 5"]);
    assert_eq!(show(&reader.written(5, WriteResult::Written(1))), vec!["write 5"]);
    assert_eq!(reader.output(5), Some(&b""[..]));
    assert_eq!(show(&reader.written(5, WriteResult::Written(0))), vec!["write 5"]);
    assert_eq!(reader.output(5), Some(&b""[..]));
    assert_eq!(show(&reader.written(5, WriteResult::Written(0))), vec!["write 5"]);
    assert_eq!(reader.output(5), Some(&b"b"[..]));
    assert!(reader.written(5, WriteResult::Written(0)).is_empty());
    assert_eq!(reader.output(5), Some(&b"b"[..]));
    assert_eq!(show(&reader.written(5, WriteResult::Written(1))), vec!["reregister 5 read"]);
    assert_eq!(reader.connection(5).unwrap().interest(), Interest::Read);
}

#[test]
fn queue_of_empty_payloads_drains_to_read_interest() {
    let mut reader = reader_with(&[5]);
    send(&mut reader, 5, b"");
    assert_eq!(show(&reader.ready(5, WRITABLE)), vec!["write 5"]);
    assert_eq!(reader.output(5), Some(&b""[..]));
    assert_eq!(show(&reader.written(5, WriteResult::Written(0))), vec!["reregister 5 read"]);
    assert_eq!(reader.connection(5).unwrap().queued(), 0);
    assert_eq!(reader.connection(5).unwrap().interest(), Interest::Read);
}

#[test]
fn failed_registration_takes_the_token_out_without_notification() {
    let mut reader = TcpReader::new();
    let actions =
        reader.notify(TcpReaderCommand::handle_new_connection(vec![10u32, 20], vec![5, 6]));
    assert_eq!(show(&actions), vec!["register 6", "register 5"]);
    assert_eq!(show(&reader.registration_failed(6)), vec!["release 6 socket 20"]);
    assert!(reader.connection(6).is_none());
    assert_eq!(reader.socket(5), Some(&10));
    assert_eq!(reader.len(), 1);
    assert!(reader.registration_failed(6).is_empty());
    assert!(reader.registration_failed(7).is_empty());
}

#[test]
fn failed_reregistration_takes_the_token_out_with_what_it_held() {
    let mut reader = reader_with(&[5]);
    assert_eq!(send(&mut reader, 5, b"unsent"), vec!["reregister 5 read+write"]);
    let actions = reader.registration_failed(5);
    assert_eq!(actions.len(), 1);
    match &actions[0] {
        Action::Release { connection } => {
            assert_eq!(connection.token(), 5);
            assert_eq!(connection.output(), Some(&b"unsent"[..]));
        }
        other => panic!("unexpected action {:?}", other),
    }
    assert_eq!(reader.len(), 0);
}

fn data_of(actions: &[Action<u32>], token: usize) -> Vec<Vec<u8>> {
    let mut data = Vec::new();
    for action in actions {
        if let Action::Notify { command } = action {
            if command.cmd == TcpNetworkCMD::HandleNewData && command.token == token {
                data.extend(plain(&command.data));
            }
        }
    }
    data
}

fn deliver(stream: &[u8], size: usize) -> (Vec<Vec<u8>>, usize) {
    let mut reader = reader_with(&[7]);
    let mut delivered = Vec::new();
    let mut notifications = 0;
    for chunk in stream.chunks(size) {
        let mut actions = reader.received(7, ReadResult::Data(chunk));
        actions.extend(reader.received(7, ReadResult::WouldBlock));
        notifications += actions.iter().filter(|a| matches!(a, Action::Notify { .. })).count();
        delivered.extend(data_of(&actions, 7));
    }
    assert!(reader.connection(7).is_some());
    (delivered, notifications)
}

#[test]
fn dry_socket_after_every_fragment_delivers_each_message_once() {
    let payloads: Vec<Vec<u8>> =
        vec![b"one".to_vec(), Vec::new(), b"three".to_vec(), b"4".to_vec()];
    let mut stream = Vec::new();
    for payload in &payloads {
        stream.extend(tcp_reader::framing::encode_message(payload).unwrap());
    }
    for size in 1..=stream.len() {
        let (delivered, _) = deliver(&stream, size);
        assert_eq!(delivered, payloads);
    }
}

#[test]
fn fragmentation_changes_the_batches_only() {
    let mut stream = Vec::new();
    for payload in [&b"ab"[..], &b"cde"[..], &b"f"[..]] {
        stream.extend(tcp_reader::framing::encode_message(payload).unwrap());
    }
    let (burst, burst_notifications) = deliver(&stream, stream.len());
    let (bytes, byte_notifications) = deliver(&stream, 1);
    assert_eq!(burst, bytes);
    assert_eq!(burst, vec![b"ab".to_vec(), b"cde".to_vec(), b"f".to_vec()]);
    assert_eq!(burst_notifications, 1);
    assert_eq!(byte_notifications, 3);
}

#[test]
fn socket_that_takes_everything_gets_the_queue_in_order() {
    let mut reader = reader_with(&[5, 6]);
    let buffers: Vec<Vec<u8>> = vec![b"b1".to_vec(), Vec::new(), b"b3".to_vec(), b"b4".to_vec()];
    for buffer in &buffers {
        send(&mut reader, 5, buffer);
    }
    assert_eq!(show(&reader.ready(5, WRITABLE)), vec!["write 5"]);
    let mut wire = Vec::new();
    let mut asked = Vec::new();
    while let Some(bytes) = reader.output(5) {
        let taken = bytes.to_vec();
        asked.extend(show(&reader.written(5, WriteResult::Written(taken.len()))));
        wire.extend(taken);
    }
    assert_eq!(wire, b"b1b3b4".to_vec());
    assert_eq!(asked, vec!["write 5", "write 5", "write 5", "reregister 5 read"]);
    assert_eq!(reader.connection(5).unwrap().queued(), 0);
    assert_eq!(reader.connection(5).unwrap().interest(), Interest::Read);
    assert_eq!(reader.len(), 2);
}

#[test]
fn payload_is_shared_not_copied() {
    let mut reader = reader_with(&[5, 6]);
    let payload = Arc::new(b"both".to_vec());
    reader.notify(TcpReaderCommand::send_data(
        vec![5, 6],
        vec![payload.clone(), payload.clone()],
    ));
    assert_eq!(Arc::strong_count(&payload), 3);
    assert_eq!(reader.output(5), Some(&b"both"[..]));
    assert_eq!(reader.output(6), Some(&b"both"[..]));
    reader.written(5, WriteResult::Written(4));
    assert_eq!(Arc::strong_count(&payload), 2);
}
