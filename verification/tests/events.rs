use mio::event::Event;
use std::sync::Arc;
use mio::unix::UnixReady;
use mio::{Ready, Token};
use tcp_reader::command::{Action, TcpNetworkCMD, TcpReaderCommand, READER_CHANNEL_TOKEN};
use tcp_reader::reader::TcpReader;

fn reader_with(token: usize) -> TcpReader<&'static str> {
    let mut reader = TcpReader::new();
    reader.notify(TcpReaderCommand::handle_new_connection(vec!["socket"], vec![token]));
    reader
}

#[test]
fn readable_event_asks_for_a_read_of_its_token() {
    let mut reader = reader_with(9);
    let actions = reader.handle_event(Event::new(Ready::readable(), Token(9)));
    assert_eq!(actions.len(), 1);
    assert!(matches!(actions[0], Action::Read { token: 9 }));
}

#[test]
fn writable_event_asks_for_a_write_of_its_token() {
    let mut reader = reader_with(9);
    reader.notify(TcpReaderCommand::send_data(vec![9], vec![Arc::new(b"out".to_vec())]));
    let actions = reader.handle_event(Event::new(Ready::writable(), Token(9)));
    assert_eq!(actions.len(), 1);
    assert!(matches!(actions[0], Action::Write { token: 9 }));
}

#[test]
fn readable_and_writable_event_asks_for_both() {
    let mut reader = reader_with(9);
    reader.notify(TcpReaderCommand::send_data(vec![9], vec![Arc::new(b"out".to_vec())]));
    let actions = reader.handle_event(Event::new(Ready::readable() | Ready::writable(), Token(9)));
    assert_eq!(actions.len(), 2);
    assert!(matches!(actions[0], Action::Read { token: 9 }));
    assert!(matches!(actions[1], Action::Write { token: 9 }));
}

#[test]
fn error_event_closes_and_notifies() {
    let mut reader = reader_with(9);
    let kind = Ready::from(UnixReady::error());
    let actions = reader.handle_event(Event::new(kind, Token(9)));
    assert_eq!(actions.len(), 2);
    match &actions[0] {
        Action::Release { connection } => assert_eq!(connection.token(), 9),
        other => panic!("unexpected action {:?}", other),
    }
    match &actions[1] {
        Action::Notify { command } => {
            assert_eq!(command.cmd, TcpNetworkCMD::ConnectionClosed);
            assert_eq!(command.token, 9);
        }
        other => panic!("unexpected action {:?}", other),
    }
    assert_eq!(reader.len(), 0);
}

#[test]
fn hang_up_event_closes_and_notifies() {
    let mut reader = reader_with(9);
    let kind = Ready::readable() | UnixReady::hup();
    let actions = reader.handle_event(Event::new(kind, Token(9)));
    assert_eq!(actions.len(), 2);
    assert!(matches!(actions[0], Action::Release { .. }));
    assert!(matches!(actions[1], Action::Notify { .. }));
    assert!(reader.connection(9).is_none());
}

#[test]
fn event_of_the_control_channel_asks_for_a_command() {
    let mut reader = reader_with(9);
    let actions = reader.handle_event(Event::new(Ready::readable(), Token(READER_CHANNEL_TOKEN)));
    assert_eq!(actions.len(), 1);
    assert!(matches!(actions[0], Action::ReceiveCommand));
}

#[test]
fn event_of_another_token_is_ignored() {
    let mut reader = reader_with(9);
    let actions = reader.handle_event(Event::new(Ready::readable(), Token(10)));
    assert!(actions.is_empty());
    assert_eq!(reader.len(), 1);
}

#[test]
fn empty_event_asks_for_nothing() {
    let mut reader = reader_with(9);
    let actions = reader.handle_event(Event::new(Ready::empty(), Token(9)));
    assert!(actions.is_empty());
    assert!(reader.connection(9).is_some());
}
