use std::collections::HashMap;
use std::sync::Arc;
use tcp_reader::connection::Interest;
use tcp_reader::table::ConnectionTable;

fn plain(list: &[Arc<Vec<u8>>]) -> Vec<Vec<u8>> {
    list.iter().map(|buffer| buffer.to_vec()).collect()
}


#[test]
fn new_table_is_empty() {
    let table: ConnectionTable<u32> = ConnectionTable::new();
    assert_eq!(table.len(), 0);
    assert!(!table.contains(0));
    assert!(table.get(0).is_none());
}

#[test]
fn add_then_get_finds_the_connection() {
    let mut table = ConnectionTable::new();
    assert!(table.add(10, "a").is_ok());
    assert_eq!(table.len(), 1);
    assert!(table.contains(10));
    let connection = table.get(10).unwrap();
    assert_eq!(connection.token(), 10);
    assert_eq!(*connection.socket(), "a");
    assert_eq!(connection.interest(), Interest::Read);
}

#[test]
fn add_of_a_present_token_fails_and_returns_the_socket() {
    let mut table = ConnectionTable::new();
    table.add(10, "first").unwrap();
    let error = table.add(10, "second").unwrap_err();
    assert_eq!(error.token, 10);
    assert_eq!(error.socket, "second");
    assert_eq!(table.len(), 1);
    assert_eq!(*table.get(10).unwrap().socket(), "first");
}

#[test]
fn remove_returns_the_connection_once() {
    let mut table = ConnectionTable::new();
    table.add(10, "a").unwrap();
    let removed = table.remove(10).unwrap();
    assert_eq!(removed.token(), 10);
    assert_eq!(*removed.socket(), "a");
    assert!(table.remove(10).is_none());
    assert!(!table.contains(10));
    assert_eq!(table.len(), 0);
}

#[test]
fn remove_of_an_absent_token_changes_nothing() {
    let mut table = ConnectionTable::new();
    table.add(1, 'x').unwrap();
    assert!(table.remove(2).is_none());
    assert_eq!(table.len(), 1);
    assert_eq!(*table.get(1).unwrap().socket(), 'x');
}

#[test]
fn removal_of_the_first_leaves_the_others_in_place() {
    let mut table = ConnectionTable::new();
    table.add(100, "a").unwrap();
    table.add(200, "b").unwrap();
    table.add(300, "c").unwrap();
    assert_eq!(*table.remove(100).unwrap().socket(), "a");
    assert_eq!(table.len(), 2);
    assert_eq!(table.get(200).unwrap().token(), 200);
    assert_eq!(*table.get(200).unwrap().socket(), "b");
    assert_eq!(table.get(300).unwrap().token(), 300);
    assert_eq!(*table.get(300).unwrap().socket(), "c");
    assert_eq!(*table.remove(300).unwrap().socket(), "c");
    assert_eq!(*table.get(200).unwrap().socket(), "b");
    assert_eq!(*table.remove(200).unwrap().socket(), "b");
    assert_eq!(table.len(), 0);
}

#[test]
fn removal_in_the_middle_and_at_the_end() {
    let mut table = ConnectionTable::new();
    for token in 0..5usize {
        table.add(token, token * 11).unwrap();
    }
    assert_eq!(*table.remove(2).unwrap().socket(), 22);
    assert_eq!(*table.remove(4).unwrap().socket(), 44);
    for token in [0usize, 1, 3] {
        let connection = table.get(token).unwrap();
        assert_eq!(connection.token(), token);
        assert_eq!(*connection.socket(), token * 11);
    }
    assert!(table.get(2).is_none());
    assert!(table.get(4).is_none());
}

#[test]
fn removed_token_can_be_added_again() {
    let mut table = ConnectionTable::new();
    table.add(7, "old").unwrap();
    table.add(8, "other").unwrap();
    table.remove(7).unwrap();
    table.add(7, "new").unwrap();
    assert_eq!(*table.get(7).unwrap().socket(), "new");
    assert_eq!(*table.get(8).unwrap().socket(), "other");
    assert_eq!(table.len(), 2);
}

#[test]
fn table_agrees_with_a_map_over_a_long_run() {
    let mut table: ConnectionTable<u64> = ConnectionTable::new();
    let mut model: HashMap<usize, u64> = HashMap::new();
    let mut seed: u64 = 0x2545_f491_4f6c_dd1d;
    for round in 0..2000u64 {
        seed ^= seed << 13;
        seed ^= seed >> 7;
        seed ^= seed << 17;
        let token = (seed % 37) as usize;
        if seed & 0x100 == 0 {
            let added = table.add(token, round);
            assert_eq!(added.is_ok(), !model.contains_key(&token));
            model.entry(token).or_insert(round);
        } else {
            let removed = table.remove(token).map(|c| c.into_socket());
            assert_eq!(removed, model.remove(&token));
        }
        assert_eq!(table.len(), model.len());
        for probe in 0..37usize {
            let found = table.get(probe).map(|c| (c.token(), *c.socket()));
            assert_eq!(found, model.get(&probe).map(|s| (probe, *s)));
        }
    }
}

#[test]
fn change_through_get_mut_reaches_the_connection_of_the_token() {
    let mut table = ConnectionTable::new();
    table.add(1, "a").unwrap();
    table.add(2, "b").unwrap();
    table.get_mut(2).unwrap().enqueue(Arc::new(b"to b".to_vec()));
    assert!(table.get_mut(3).is_none());
    assert_eq!(table.get(1).unwrap().queued(), 0);
    assert_eq!(table.get(1).unwrap().interest(), Interest::Read);
    assert_eq!(table.get(2).unwrap().output(), Some(&b"to b"[..]));
    assert_eq!(table.get(2).unwrap().interest(), Interest::ReadWrite);
}

#[test]
fn queued_bytes_survive_the_removal_of_another_token() {
    let mut table = ConnectionTable::new();
    table.add(1, "a").unwrap();
    table.add(2, "b").unwrap();
    table.add(3, "c").unwrap();
    table.get_mut(3).unwrap().enqueue(Arc::new(b"for c".to_vec()));
    table.get_mut(3).unwrap().receive(b"\x00\x00\x00\x01");
    table.remove(1).unwrap();
    assert_eq!(table.get(3).unwrap().output(), Some(&b"for c"[..]));
    table.get_mut(3).unwrap().receive(b"z");
    assert_eq!(plain(&table.get_mut(3).unwrap().take_received()), vec![b"z".to_vec()]);
    assert!(table.get_mut(2).unwrap().take_received().is_empty());
}

#[test]
fn get_mut_changes_the_connection_in_place() {
    let mut table = ConnectionTable::new();
    table.add(1, "a").unwrap();
    table.add(2, "b").unwrap();
    {
        let connection = table.get_mut(2).unwrap();
        assert_eq!(connection.token(), 2);
        connection.enqueue(Arc::new(b"first".to_vec()));
        connection.enqueue(Arc::new(b"second".to_vec()));
        connection.advance(2);
    }
    assert!(table.get_mut(3).is_none());
    assert_eq!(table.get(2).unwrap().output(), Some(&b"rst"[..]));
    assert_eq!(table.get(2).unwrap().queued(), 2);
    assert_eq!(table.get(2).unwrap().interest(), Interest::ReadWrite);
    assert_eq!(table.get(1).unwrap().queued(), 0);
    assert_eq!(table.get(1).unwrap().interest(), Interest::Read);
    assert_eq!(table.len(), 2);
}

#[test]
fn get_mut_reaches_a_connection_that_a_removal_has_moved() {
    let mut table = ConnectionTable::new();
    table.add(1, "a").unwrap();
    table.add(2, "b").unwrap();
    table.add(3, "c").unwrap();
    table.remove(1).unwrap();
    table.get_mut(3).unwrap().receive(b"\x00\x00\x00\x01c");
    table.get_mut(2).unwrap().receive(b"\x00\x00\x00\x01b");
    assert_eq!(plain(&table.get_mut(3).unwrap().take_received()), vec![b"c".to_vec()]);
    assert_eq!(plain(&table.get_mut(2).unwrap().take_received()), vec![b"b".to_vec()]);
}
