use chat_z_backend::{
    create_channel, create_encrypted_channel, create_encrypted_message, get_channel,
    get_encrypted_messages, get_messages, get_user, join_channel, register_user, restore,
    restore_mended,
    send_message, share_encrypted_message, snapshot, ChatState, CreateChannelRequest,
    CreateMessageRequest, Identity, MessageIds, MessageType, Snapshot,
};

fn who(bytes: &[u8]) -> Identity {
    Identity { bytes: bytes.to_vec() }
}

fn alice() -> Identity {
    who(&[1, 1, 1])
}

fn bob() -> Identity {
    who(&[2, 2])
}

fn busy() -> ChatState {
    let mut state = ChatState::new(Some("key".to_string()), 1);
    register_user(&mut state, &alice(), 1, "alice".to_string(), None).unwrap();
    register_user(&mut state, &bob(), 1, "bob".to_string(), Some("b".to_string())).unwrap();
    create_channel(
        &mut state,
        &alice(),
        2,
        CreateChannelRequest { name: "Open".to_string(), description: None },
    )
    .unwrap();
    create_encrypted_channel(
        &mut state,
        &alice(),
        2,
        "Sealed".to_string(),
        None,
        Some("secret".to_string()),
    )
    .unwrap();
    join_channel(&mut state, &bob(), 3, Some("secret".to_string())).unwrap();
    send_message(
        &mut state,
        &alice(),
        10,
        CreateMessageRequest {
            content: "plain".to_string(),
            channel_id: Some(2),
            reply_to: None,
            message_type: MessageType::Text,
            attachments: vec![],
        },
    )
    .unwrap();
    for (author, now) in [(alice(), 20u64), (bob(), 21), (alice(), 22)] {
        create_encrypted_message(
            &mut state,
            &author,
            now,
            "sealed".to_string(),
            Some(3),
            None,
            MessageType::Text,
            vec![],
        )
        .unwrap();
    }
    share_encrypted_message(&mut state, &alice(), 4, &bob()).unwrap();
    share_encrypted_message(&mut state, &alice(), 2, &bob()).unwrap();
    share_encrypted_message(&mut state, &bob(), 3, &who(&[7])).unwrap();
    state
}

fn broken(change: impl FnOnce(&mut Snapshot)) -> bool {
    let mut taken = snapshot(&busy());
    change(&mut taken);
    restore(&taken).is_none()
}

#[test]
fn a_snapshot_lists_every_table_in_the_order_of_its_keys() {
    let taken = snapshot(&busy());
    let users: Vec<Identity> = taken.users.iter().map(|u| u.user_principal.clone()).collect();
    assert_eq!(users, vec![bob(), alice()]);
    let channels: Vec<u64> = taken.channels.iter().map(|c| c.id).collect();
    assert_eq!(channels, vec![1, 2, 3]);
    let messages: Vec<u64> = taken.messages.iter().map(|m| m.id).collect();
    assert_eq!(messages, vec![1]);
    let sealed: Vec<u64> = taken.encrypted_messages.iter().map(|m| m.id).collect();
    assert_eq!(sealed, vec![2, 3, 4]);
    assert_eq!(
        taken.owners,
        vec![(bob(), MessageIds { ids: vec![3] }), (alice(), MessageIds { ids: vec![2, 4] })]
    );
    assert_eq!(
        taken.shares,
        vec![(who(&[7]), MessageIds { ids: vec![3] }), (bob(), MessageIds { ids: vec![4, 2] })]
    );
    assert_eq!(taken.next_message_id, 5);
    assert_eq!(taken.next_channel_id, 4);
    assert_eq!(taken.key_name, "key");
}

#[test]
fn a_state_is_put_together_again_from_its_snapshot() {
    let state = busy();
    let taken = snapshot(&state);
    let mut restored = restore(&taken).unwrap();
    assert_eq!(snapshot(&restored), taken);
    assert_eq!(get_user(&restored, &alice()), get_user(&state, &alice()));
    assert_eq!(get_channel(&restored, 3), get_channel(&state, 3));
    assert_eq!(get_messages(&restored, None, None, None), get_messages(&state, None, None, None));
    assert_eq!(
        get_encrypted_messages(&restored, &bob(), 30),
        get_encrypted_messages(&state, &bob(), 30)
    );
    // ids go on where they had come to
    let next = create_encrypted_message(
        &mut restored,
        &alice(),
        40,
        "more".to_string(),
        None,
        None,
        MessageType::Text,
        vec![],
    );
    assert_eq!(next, Ok(5));
}

#[test]
fn the_state_at_genesis_is_put_together_again() {
    let state = ChatState::new(None, 9);
    let restored = restore(&snapshot(&state)).unwrap();
    assert_eq!(snapshot(&restored), snapshot(&state));
}

#[test]
fn a_snapshot_of_no_valid_state_is_refused() {
    assert!(!broken(|_| {}));
    // an id that was not given out
    assert!(broken(|s| s.next_message_id = 4));
    assert!(broken(|s| s.next_message_id = 0));
    assert!(broken(|s| s.next_channel_id = 3));
    assert!(broken(|s| s.messages[0].id = 9));
    assert!(broken(|s| s.channels[1].id = 9));
    // more messages posted than ids given out
    assert!(broken(|s| s.users[0].message_count = 5));
    assert!(broken(|s| s.channels[0].message_count = 5));
    // an expiry that is not a day after the writing
    assert!(broken(|s| s.encrypted_messages[0].expires_at += 1));
    assert!(broken(|s| s.encrypted_messages[0].timestamp = u64::MAX));
    // a channel with one member twice
    assert!(broken(|s| s.channels[1].members.push(alice())));
    // a message shared with its author, or twice with one identity
    assert!(broken(|s| s.encrypted_messages[0].shared_with.push(alice())));
    assert!(broken(|s| {
        s.encrypted_messages[0].shared_with.push(bob());
    }));
    // a message shared with one whose list does not name it
    assert!(broken(|s| s.encrypted_messages[0].shared_with.push(who(&[9]))));
    // an index that names a message that is not there, or not of that author
    assert!(broken(|s| s.owners[0].1.ids.push(99)));
    assert!(broken(|s| s.owners[0].1.ids.push(2)));
    assert!(broken(|s| s.shares[1].1.ids.push(3)));
    // an id listed twice, an empty list, a message that no list names
    assert!(broken(|s| s.owners[1].1.ids.push(2)));
    assert!(broken(|s| s.owners.push((who(&[9]), MessageIds { ids: vec![] }))));
    assert!(broken(|s| {
        s.owners.remove(0);
    }));
    assert!(broken(|s| {
        s.shares.remove(0);
    }));
    assert!(broken(|s| {
        s.encrypted_messages.remove(1);
    }));
}

#[test]
fn too_many_shares_are_refused() {
    assert!(broken(|s| {
        for i in 0..50u8 {
            s.encrypted_messages[0].shared_with.push(who(&[50, i]));
            s.shares.push((who(&[50, i]), MessageIds { ids: vec![2] }));
        }
    }));
    assert!(!broken(|s| {
        for i in 0..49u8 {
            s.encrypted_messages[0].shared_with.push(who(&[50, i]));
            s.shares.push((who(&[50, i]), MessageIds { ids: vec![2] }));
        }
    }));
}

#[test]
fn older_records_are_mended() {
    let mut taken = snapshot(&busy());
    // message 2 of Alice shared with Alice herself, and the counter for channels too low
    taken.encrypted_messages[0].shared_with.insert(0, alice());
    taken.shares.push((alice(), MessageIds { ids: vec![2] }));
    assert!(restore(&taken).is_none());
    let mut mended = restore_mended(&taken).unwrap();
    assert_eq!(snapshot(&mended), snapshot(&busy()));

    let mut early = snapshot(&ChatState::new(None, 3));
    early.next_channel_id = 1;
    assert!(restore(&early).is_none());
    let restored = restore_mended(&early).unwrap();
    assert_eq!(restored.peek_channel_id(), 2);
    assert_eq!(snapshot(&restored).channels, early.channels);

    // what is valid stays as it is
    let same = restore_mended(&snapshot(&busy())).unwrap();
    assert_eq!(snapshot(&same), snapshot(&busy()));
    // the author's own list in the share index keeps what others shared
    share_encrypted_message(&mut mended, &bob(), 3, &alice()).unwrap();
    let mut again = snapshot(&mended);
    again.encrypted_messages[0].shared_with.push(alice());
    again.shares[2].1.ids.push(2);
    let healed = restore_mended(&again).unwrap();
    assert_eq!(snapshot(&healed), snapshot(&mended));
}

#[test]
fn mending_does_not_make_up_for_other_faults() {
    let mut taken = snapshot(&busy());
    taken.owners[0].1.ids.push(99);
    assert!(restore_mended(&taken).is_none());
    let mut taken = snapshot(&busy());
    taken.next_message_id = 0;
    assert!(restore_mended(&taken).is_none());
}
