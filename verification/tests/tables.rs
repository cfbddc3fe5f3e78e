use chat_z_backend::table::Table;
use chat_z_backend::{next_channel_id, next_message_id, ChatState, Identity, MessageIds};

fn list(ids: &[u64]) -> MessageIds {
    MessageIds { ids: ids.to_vec() }
}

#[test]
fn a_table_walks_its_keys_in_ascending_order() {
    let mut table: Table<u64, MessageIds> = Table::new();
    assert_eq!(table.len(), 0);
    assert_eq!(table.insert(30, list(&[3])), None);
    assert_eq!(table.insert(10, list(&[1])), None);
    assert_eq!(table.insert(20, list(&[2])), None);
    assert_eq!(table.len(), 3);
    let keys: Vec<u64> = (0..table.len()).map(|i| *table.key_at(i)).collect();
    assert_eq!(keys, vec![10, 20, 30]);
    let values: Vec<Vec<u64>> = (0..table.len()).map(|i| table.value_at(i).ids.clone()).collect();
    assert_eq!(values, vec![vec![1], vec![2], vec![3]]);
}

#[test]
fn a_table_hands_back_what_it_replaces_and_removes() {
    let mut table: Table<u64, MessageIds> = Table::new();
    table.insert(1, list(&[1]));
    table.insert(2, list(&[2]));
    assert_eq!(table.insert(1, list(&[1, 1])), Some(list(&[1])));
    assert_eq!(table.len(), 2);
    assert_eq!(table.get(&1), Some(&list(&[1, 1])));
    assert_eq!(table.get(&3), None);
    assert!(table.contains_key(&2));
    assert!(!table.contains_key(&3));
    assert_eq!(table.remove(&3), None);
    assert_eq!(table.remove(&1), Some(list(&[1, 1])));
    assert_eq!(table.remove(&1), None);
    assert_eq!(table.len(), 1);
    assert_eq!(*table.key_at(0), 2);
}

#[test]
fn a_table_of_identities_puts_the_shorter_first() {
    let mut table: Table<Identity, MessageIds> = Table::new();
    for bytes in [vec![2u8, 0], vec![9], vec![1, 255], vec![], vec![1, 0, 0], vec![3]] {
        table.insert(Identity { bytes }, list(&[]));
    }
    let keys: Vec<Vec<u8>> = (0..table.len()).map(|i| table.key_at(i).bytes.clone()).collect();
    assert_eq!(keys, vec![vec![], vec![3], vec![9], vec![1, 255], vec![2, 0], vec![1, 0, 0]]);
    assert!(table.contains_key(&Identity { bytes: vec![1, 255] }));
    assert!(!table.contains_key(&Identity { bytes: vec![255, 1] }));
}

#[test]
fn many_keys_are_found_again() {
    let mut table: Table<u64, MessageIds> = Table::new();
    for i in 0..200u64 {
        table.insert((i * 37) % 200, list(&[i]));
    }
    assert_eq!(table.len(), 200);
    for i in 0..200u64 {
        assert_eq!(table.get(&((i * 37) % 200)), Some(&list(&[i])));
    }
    for i in 0..200usize {
        assert_eq!(*table.key_at(i), i as u64);
    }
}

#[test]
fn ids_are_given_out_once() {
    let mut state = ChatState::new(None, 0);
    assert_eq!(next_message_id(&mut state), 1);
    assert_eq!(next_message_id(&mut state), 2);
    assert_eq!(next_channel_id(&mut state), 2);
    assert_eq!(next_message_id(&mut state), 3);
    assert_eq!(next_channel_id(&mut state), 3);
    assert_eq!(state.peek_message_id(), 4);
    assert_eq!(state.peek_channel_id(), 4);
}

#[test]
fn a_change_is_written_back() {
    let mut table: Table<u64, MessageIds> = Table::new();
    table.insert(1, list(&[1]));
    table.insert(2, list(&[2]));
    let changed = table.update(&2, |old| {
        let mut ids = old.ids.clone();
        ids.push(22);
        MessageIds { ids }
    });
    assert!(changed);
    assert_eq!(table.get(&2), Some(&list(&[2, 22])));
    assert_eq!(table.get(&1), Some(&list(&[1])));
    assert!(!table.update(&3, |_| list(&[3])));
    assert_eq!(table.len(), 2);
}
