use chat_z_backend::envelope::{
    decrypt_message_content, encrypt_message_content, fault_of_content, fault_of_envelope,
    open_envelope,
};
use chat_z_backend::reading::decrypt_fault;
use chat_z_backend::encrypted::create_encrypted_message_sealed;
use chat_z_backend::{
    cleanup_expired_messages, create_channel, create_encrypted_channel,
    create_encrypted_message, decrypt_all_messages_from_channel, decrypt_encrypted_message,
    delete_encrypted_message, encrypted_symmetric_key_for_message, get_encrypted_messages,
    get_encrypted_messages_from_channel, get_user, join_channel, register_user,
    share_encrypted_message, symmetric_key_verification_key_for_encrypted_message, Channel,
    ChatError, ChatState, CreateChannelRequest, EncryptedMessage, Identity, MessageType,
};

const DAY: u64 = 24 * 60 * 60 * 1_000_000_000;

fn who(bytes: &[u8]) -> Identity {
    Identity { bytes: bytes.to_vec() }
}

fn alice() -> Identity {
    who(&[1, 1, 1])
}

fn bob() -> Identity {
    who(&[2, 2, 2])
}

fn carol() -> Identity {
    who(&[3, 3, 3])
}

/// Alice, Bob and Carol registered; channel 2 is open, channel 3 encrypted;
/// Alice is in both, Bob only in the encrypted one, Carol only in the open.
fn chat() -> ChatState {
    let mut state = ChatState::new(None, 1);
    register_user(&mut state, &alice(), 1, "alice".to_string(), None).unwrap();
    register_user(&mut state, &bob(), 1, "bob".to_string(), None).unwrap();
    register_user(&mut state, &carol(), 1, "carol".to_string(), None).unwrap();
    create_channel(
        &mut state,
        &alice(),
        2,
        CreateChannelRequest { name: "Open".to_string(), description: None },
    )
    .unwrap();
    create_encrypted_channel(&mut state, &alice(), 2, "Sealed".to_string(), None, None).unwrap();
    join_channel(&mut state, &bob(), 3, None).unwrap();
    join_channel(&mut state, &carol(), 2, None).unwrap();
    state
}

fn post(state: &mut ChatState, author: &Identity, now: u64, plain: &str, channel: Option<u64>) -> u64 {
    create_encrypted_message(
        state,
        author,
        now,
        plain.to_string(),
        channel,
        None,
        MessageType::Text,
        vec![],
    )
    .unwrap()
}

fn ids(messages: &[EncryptedMessage]) -> Vec<u64> {
    messages.iter().map(|m| m.id).collect()
}

#[test]
fn sealing_tags_and_encodes() {
    assert_eq!(encrypt_message_content("hi", 1), "W1ZFVF9FTkNSWVBURUQ6MV1oaQ==");
    assert_eq!(
        encrypt_message_content("Hello, world!", 7),
        "W1ZFVF9FTkNSWVBURUQ6N11IZWxsbywgd29ybGQh"
    );
    assert_eq!(
        decrypt_message_content(&encrypt_message_content("gr\u{00FC}\u{00DF}e \u{1F512}", u64::MAX), u64::MAX),
        Ok("gr\u{00FC}\u{00DF}e \u{1F512}".to_string())
    );
}

#[test]
fn opening_accepts_what_was_stored_before_sealing() {
    // sealed under this id
    assert_eq!(decrypt_message_content("W1ZFVF9FTkNSWVBURUQ6MV1oaQ==", 1), Ok("hi".to_string()));
    // sealed under another id: handed out whole
    assert_eq!(
        decrypt_message_content("W1ZFVF9FTkNSWVBURUQ6OF1vdGhlciBpZA==", 7),
        Ok("[VET_ENCRYPTED:8]other id".to_string())
    );
    assert_eq!(
        decrypt_message_content("W1ZFVF9FTkNSWVBURUQ6OF1vdGhlciBpZA==", 8),
        Ok("other id".to_string())
    );
    // base64 without a tag
    assert_eq!(decrypt_message_content("anVzdCB0ZXh0", 1), Ok("just text".to_string()));
    // no base64 at all
    assert_eq!(decrypt_message_content("plain, old text", 1), Ok("plain, old text".to_string()));
    // base64 of bytes that are no text
    assert_eq!(decrypt_message_content("//4=", 1), Err(ChatError::InvalidInput));
}

#[test]
fn opening_goes_by_what_the_content_decodes_to() {
    assert_eq!(open_envelope(None, "kept", 3), Ok("kept".to_string()));
    assert_eq!(
        open_envelope(Some(b"[VET_ENCRYPTED:3]inside".to_vec()), "ignored", 3),
        Ok("inside".to_string())
    );
    assert_eq!(
        open_envelope(Some(b"[VET_ENCRYPTED:30]inside".to_vec()), "ignored", 3),
        Ok("[VET_ENCRYPTED:30]inside".to_string())
    );
    assert_eq!(open_envelope(Some(b"[VET_ENCRYPTED:3]".to_vec()), "ignored", 3), Ok("".to_string()));
    assert_eq!(open_envelope(Some(vec![]), "ignored", 3), Ok("".to_string()));
    assert_eq!(open_envelope(Some(vec![0xc3]), "ignored", 3), Err(ChatError::InvalidInput));
    assert_eq!(
        fault_of_envelope(Some(vec![0xc3])),
        Some(String::from_utf8(vec![0xc3]).unwrap_err().to_string())
    );
    assert_eq!(fault_of_envelope(Some(b"fine".to_vec())), None);
    assert_eq!(fault_of_envelope(None), None);
    assert_eq!(fault_of_content("//4=").is_some(), true);
    assert_eq!(fault_of_content("anVzdCB0ZXh0"), None);
    assert_eq!(fault_of_content("no base64"), None);
}

#[test]
fn an_encrypted_message_expires_a_day_after_it_was_written() {
    let mut state = chat();
    let now = 1_234_567_890_000_000_000u64;
    let id = post(&mut state, &alice(), now, "  secret  ", None);
    assert_eq!(id, 1);
    let stored = get_encrypted_messages(&state, &alice(), now);
    assert_eq!(stored.len(), 1);
    let message = &stored[0];
    assert_eq!(message.id, 1);
    assert_eq!(message.author, alice());
    assert_eq!(message.timestamp, now);
    assert_eq!(message.expires_at, 1_234_654_290_000_000_000);
    assert_eq!(message.expires_at, now + DAY);
    assert_eq!(message.channel_id, None);
    assert!(message.shared_with.is_empty());
    // the content is sealed as given, not trimmed
    assert_eq!(message.encrypted_content, encrypt_message_content("  secret  ", 1));
    assert!(!message.is_expired(now + DAY));
    assert!(message.is_expired(now + DAY + 1));
    assert!(!message.is_expired(0));
    let user = get_user(&state, &alice()).unwrap();
    assert_eq!(user.message_count, 1);
    assert_eq!(user.last_active, now);
    // plain and encrypted messages take their ids from one sequence
    assert_eq!(state.peek_message_id(), 2);
}

#[test]
fn posting_an_encrypted_message_can_be_refused() {
    let mut state = chat();
    let send = |state: &mut ChatState, author: &Identity, plain: &str, channel: Option<u64>| {
        create_encrypted_message(
            state,
            author,
            10,
            plain.to_string(),
            channel,
            None,
            MessageType::Text,
            vec![],
        )
    };
    assert_eq!(send(&mut state, &alice(), "", None), Err(ChatError::InvalidInput));
    assert_eq!(send(&mut state, &alice(), "  ", None), Err(ChatError::InvalidInput));
    assert_eq!(send(&mut state, &alice(), &"a".repeat(2001), None), Err(ChatError::InvalidInput));
    assert_eq!(send(&mut state, &who(&[9]), "hi", None), Err(ChatError::NotAuthorized));
    // no member of the channel
    assert_eq!(send(&mut state, &carol(), "hi", Some(3)), Err(ChatError::NotAuthorized));
    assert_eq!(send(&mut state, &alice(), "hi", Some(99)), Err(ChatError::NotAuthorized));
    // a member, but the channel is not encrypted
    assert_eq!(send(&mut state, &alice(), "hi", Some(2)), Err(ChatError::InvalidInput));
    assert_eq!(send(&mut state, &alice(), "hi", Some(1)), Err(ChatError::InvalidInput));
    assert_eq!(state.peek_message_id(), 1);
    assert_eq!(send(&mut state, &alice(), &"\u{1F512}".repeat(2001), None), Err(ChatError::InvalidInput));
    assert_eq!(send(&mut state, &alice(), &"\u{1F512}".repeat(2000), Some(3)), Ok(1));
    assert_eq!(send(&mut state, &bob(), "hi", Some(3)), Ok(2));
}

#[test]
fn sharing_lists_the_message_for_the_other() {
    let mut state = chat();
    let first = post(&mut state, &alice(), 10, "one", None);
    let second = post(&mut state, &alice(), 11, "two", None);
    let bobs = post(&mut state, &bob(), 12, "three", None);
    assert_eq!(ids(&get_encrypted_messages(&state, &bob(), 20)), vec![bobs]);
    assert_eq!(share_encrypted_message(&mut state, &alice(), second, &bob()), Ok(()));
    assert_eq!(share_encrypted_message(&mut state, &alice(), first, &bob()), Ok(()));
    // again: nothing is listed twice
    assert_eq!(share_encrypted_message(&mut state, &alice(), second, &bob()), Ok(()));
    // first what Bob wrote, then what is shared with him, in the order of sharing
    assert_eq!(ids(&get_encrypted_messages(&state, &bob(), 20)), vec![bobs, second, first]);
    assert_eq!(ids(&get_encrypted_messages(&state, &alice(), 20)), vec![first, second]);
    let shared = &get_encrypted_messages(&state, &alice(), 20)[1];
    assert_eq!(shared.shared_with, vec![bob()]);
    assert_eq!(ids(&get_encrypted_messages(&state, &carol(), 20)), Vec::<u64>::new());
    assert_eq!(decrypt_encrypted_message(&state, &bob(), 20, second), Ok("two".to_string()));
    assert_eq!(decrypt_encrypted_message(&state, &carol(), 20, second), Err(ChatError::NotAuthorized));
}

#[test]
fn sharing_can_be_refused() {
    let mut state = chat();
    let id = post(&mut state, &alice(), 10, "one", None);
    assert_eq!(share_encrypted_message(&mut state, &alice(), 99, &bob()), Err(ChatError::NotFound));
    assert_eq!(share_encrypted_message(&mut state, &bob(), id, &carol()), Err(ChatError::NotAuthorized));
    for i in 0..50u8 {
        assert_eq!(share_encrypted_message(&mut state, &alice(), id, &who(&[100, i])), Ok(()));
    }
    assert_eq!(get_encrypted_messages(&state, &alice(), 20)[0].shared_with.len(), 50);
    assert_eq!(share_encrypted_message(&mut state, &alice(), id, &bob()), Err(ChatError::InvalidInput));
    // at the limit even one who is listed is refused
    assert_eq!(
        share_encrypted_message(&mut state, &alice(), id, &who(&[100, 0])),
        Err(ChatError::InvalidInput)
    );
    assert_eq!(get_encrypted_messages(&state, &alice(), 20)[0].shared_with.len(), 50);
    assert_eq!(ids(&get_encrypted_messages(&state, &who(&[100, 49]), 20)), vec![id]);
    assert_eq!(ids(&get_encrypted_messages(&state, &bob(), 20)), Vec::<u64>::new());
}

#[test]
fn the_author_is_never_among_those_a_message_is_shared_with() {
    let mut state = chat();
    let id = post(&mut state, &alice(), 10, "one", None);
    assert_eq!(share_encrypted_message(&mut state, &alice(), id, &alice()), Ok(()));
    let listed = get_encrypted_messages(&state, &alice(), 20);
    assert_eq!(ids(&listed), vec![id]);
    assert!(listed[0].shared_with.is_empty());
}

#[test]
fn deleting_strips_the_message_from_every_list() {
    let mut state = chat();
    let first = post(&mut state, &alice(), 10, "one", None);
    let second = post(&mut state, &alice(), 11, "two", None);
    share_encrypted_message(&mut state, &alice(), first, &bob()).unwrap();
    share_encrypted_message(&mut state, &alice(), first, &carol()).unwrap();
    share_encrypted_message(&mut state, &alice(), second, &carol()).unwrap();
    assert_eq!(delete_encrypted_message(&mut state, &alice(), 99), Err(ChatError::NotFound));
    assert_eq!(delete_encrypted_message(&mut state, &bob(), first), Err(ChatError::NotAuthorized));
    assert_eq!(ids(&get_encrypted_messages(&state, &bob(), 20)), vec![first]);
    assert_eq!(delete_encrypted_message(&mut state, &alice(), first), Ok(()));
    assert_eq!(ids(&get_encrypted_messages(&state, &alice(), 20)), vec![second]);
    assert_eq!(ids(&get_encrypted_messages(&state, &bob(), 20)), Vec::<u64>::new());
    assert_eq!(ids(&get_encrypted_messages(&state, &carol(), 20)), vec![second]);
    assert_eq!(delete_encrypted_message(&mut state, &alice(), first), Err(ChatError::NotFound));
    assert_eq!(decrypt_encrypted_message(&state, &alice(), 20, first), Err(ChatError::NotFound));
    assert_eq!(delete_encrypted_message(&mut state, &alice(), second), Ok(()));
    assert_eq!(ids(&get_encrypted_messages(&state, &alice(), 20)), Vec::<u64>::new());
    assert_eq!(ids(&get_encrypted_messages(&state, &carol(), 20)), Vec::<u64>::new());
    // the count of what was posted stays
    assert_eq!(get_user(&state, &alice()).unwrap().message_count, 2);
}

#[test]
fn a_sweep_removes_what_has_expired_and_its_traces() {
    let mut state = chat();
    let old = post(&mut state, &alice(), 1_000, "old", None);
    let older = post(&mut state, &bob(), 500, "older", Some(3));
    let young = post(&mut state, &alice(), 2_000, "young", None);
    share_encrypted_message(&mut state, &alice(), old, &bob()).unwrap();
    share_encrypted_message(&mut state, &alice(), old, &carol()).unwrap();
    share_encrypted_message(&mut state, &alice(), young, &carol()).unwrap();

    // at the time of expiry nothing has expired yet
    assert_eq!(cleanup_expired_messages(&mut state, 500 + DAY), 0);
    assert_eq!(ids(&get_encrypted_messages(&state, &bob(), 0)), vec![older, old]);

    assert_eq!(cleanup_expired_messages(&mut state, 1_000 + DAY + 1), 2);
    assert_eq!(ids(&get_encrypted_messages(&state, &alice(), 0)), vec![young]);
    assert_eq!(ids(&get_encrypted_messages(&state, &bob(), 0)), Vec::<u64>::new());
    assert_eq!(ids(&get_encrypted_messages(&state, &carol(), 0)), vec![young]);
    assert_eq!(decrypt_encrypted_message(&state, &alice(), 0, old), Err(ChatError::NotFound));
    assert_eq!(delete_encrypted_message(&mut state, &alice(), old), Err(ChatError::NotFound));

    // a second sweep finds nothing
    assert_eq!(cleanup_expired_messages(&mut state, 1_000 + DAY + 1), 0);
    assert_eq!(ids(&get_encrypted_messages(&state, &alice(), 0)), vec![young]);

    assert_eq!(cleanup_expired_messages(&mut state, u64::MAX), 1);
    assert_eq!(ids(&get_encrypted_messages(&state, &alice(), 0)), Vec::<u64>::new());
    assert_eq!(ids(&get_encrypted_messages(&state, &carol(), 0)), Vec::<u64>::new());
    assert_eq!(cleanup_expired_messages(&mut state, u64::MAX), 0);
}

#[test]
fn expired_messages_are_not_handed_out() {
    let mut state = chat();
    let id = post(&mut state, &alice(), 1_000, "soon gone", Some(3));
    share_encrypted_message(&mut state, &alice(), id, &carol()).unwrap();
    let last = 1_000 + DAY;
    assert_eq!(decrypt_encrypted_message(&state, &alice(), last, id), Ok("soon gone".to_string()));
    assert_eq!(ids(&get_encrypted_messages(&state, &alice(), last)), vec![id]);
    assert_eq!(ids(&get_encrypted_messages_from_channel(&state, 3, last)), vec![id]);
    assert_eq!(decrypt_all_messages_from_channel(&state, &bob(), last, 3).len(), 1);
    assert!(encrypted_symmetric_key_for_message(&state, &alice(), last, id).is_ok());

    let late = last + 1;
    assert_eq!(decrypt_encrypted_message(&state, &alice(), late, id), Err(ChatError::NotAuthorized));
    assert_eq!(ids(&get_encrypted_messages(&state, &alice(), late)), Vec::<u64>::new());
    assert_eq!(ids(&get_encrypted_messages(&state, &carol(), late)), Vec::<u64>::new());
    assert_eq!(ids(&get_encrypted_messages_from_channel(&state, 3, late)), Vec::<u64>::new());
    assert!(decrypt_all_messages_from_channel(&state, &bob(), late, 3).is_empty());
    assert_eq!(
        encrypted_symmetric_key_for_message(&state, &alice(), late, id),
        Err(ChatError::NotAuthorized)
    );
}

#[test]
fn members_of_an_encrypted_channel_read_its_messages() {
    let mut state = chat();
    let id = post(&mut state, &alice(), 10, "for the channel", Some(3));
    // Bob is a member of the encrypted channel, and nothing is shared with him
    assert_eq!(decrypt_encrypted_message(&state, &bob(), 20, id), Ok("for the channel".to_string()));
    // Carol is no member
    assert_eq!(decrypt_encrypted_message(&state, &carol(), 20, id), Err(ChatError::NotAuthorized));
    assert_eq!(decrypt_encrypted_message(&state, &who(&[9]), 20, id), Err(ChatError::NotAuthorized));
    assert_eq!(decrypt_encrypted_message(&state, &bob(), 20, 99), Err(ChatError::NotFound));
    // the sealed messages of the channel are there for anyone to see
    let sealed = get_encrypted_messages_from_channel(&state, 3, 20);
    assert_eq!(ids(&sealed), vec![id]);
    assert_eq!(sealed[0].encrypted_content, encrypt_message_content("for the channel", id));
    assert!(get_encrypted_messages_from_channel(&state, 2, 20).is_empty());
    assert!(get_encrypted_messages_from_channel(&state, 99, 20).is_empty());
}

fn channel(is_encrypted: bool, members: Vec<Identity>) -> Channel {
    Channel {
        id: 5,
        name: "c".to_string(),
        description: None,
        created_by: alice(),
        created_at: 0,
        members,
        message_count: 0,
        last_message_at: None,
        is_encrypted,
        password_hash: None,
    }
}

fn message_in(channel_id: Option<u64>, shared_with: Vec<Identity>) -> EncryptedMessage {
    EncryptedMessage {
        id: 1,
        encrypted_content: "x".to_string(),
        author: alice(),
        timestamp: 0,
        expires_at: DAY,
        channel_id,
        reply_to: None,
        message_type: MessageType::Text,
        shared_with,
        attachments: vec![],
    }
}

#[test]
fn authorization_has_three_sources() {
    let posted = message_in(Some(5), vec![carol()]);
    let encrypted = channel(true, vec![alice(), bob()]);
    let open = channel(false, vec![alice(), bob()]);
    // the author, whatever the channel
    assert!(posted.is_authorized_with_channels(&alice(), |_| None));
    assert!(posted.is_authorized_in(&alice(), None));
    // one it is shared with
    assert!(posted.is_authorized_with_channels(&carol(), |_| None));
    // a member of the encrypted channel
    assert!(posted.is_authorized_with_channels(&bob(), |id| {
        assert_eq!(id, 5);
        Some(encrypted.clone())
    }));
    assert!(posted.is_authorized_in(&bob(), Some(&encrypted)));
    assert!(!posted.is_authorized(&bob()));
    // the same member, the channel not being encrypted
    assert!(!posted.is_authorized_with_channels(&bob(), |_| Some(open.clone())));
    assert!(!posted.is_authorized_in(&bob(), Some(&open)));
    // no member
    assert!(!posted.is_authorized_with_channels(&who(&[9]), |_| Some(encrypted.clone())));
    assert!(!posted.is_authorized_in(&bob(), None));
    // a message outside every channel
    let private = message_in(None, vec![]);
    assert!(!private.is_authorized_in(&bob(), Some(&encrypted)));
    assert!(!private.is_authorized_with_channels(&bob(), |_| Some(encrypted.clone())));
}

#[test]
fn opening_a_channel_lists_the_newest_first() {
    let mut state = chat();
    let a = post(&mut state, &alice(), 30, "middle", Some(3));
    let b = post(&mut state, &bob(), 10, "oldest", Some(3));
    let c = post(&mut state, &alice(), 30, "middle too", Some(3));
    let d = post(&mut state, &bob(), 40, "newest", Some(3));
    post(&mut state, &alice(), 50, "outside", None);
    let opened = decrypt_all_messages_from_channel(&state, &bob(), 60, 3);
    let seen: Vec<(u64, &str, &str)> = opened
        .iter()
        .map(|m| (m.id, m.content.as_str(), m.author_username.as_str()))
        .collect();
    assert_eq!(
        seen,
        vec![
            (d, "newest", "bob"),
            (a, "middle", "alice"),
            (c, "middle too", "alice"),
            (b, "oldest", "bob"),
        ]
    );
    assert_eq!(opened[0].timestamp, 40);
    // Carol is no member, the open channel is not encrypted, and one channel is not there
    assert!(decrypt_all_messages_from_channel(&state, &carol(), 60, 3).is_empty());
    assert!(decrypt_all_messages_from_channel(&state, &alice(), 60, 2).is_empty());
    assert!(decrypt_all_messages_from_channel(&state, &alice(), 60, 99).is_empty());
}

#[test]
fn content_that_does_not_open_is_left_out() {
    let mut state = chat();
    let good = post(&mut state, &alice(), 10, "fine", Some(3));
    let bad = create_encrypted_message_sealed(
        &mut state,
        &alice(),
        11,
        "fine",
        "//4=".to_string(),
        Some(3),
        None,
        MessageType::Text,
        vec![],
    )
    .unwrap();
    let legacy = create_encrypted_message_sealed(
        &mut state,
        &alice(),
        12,
        "fine",
        "kept as it was".to_string(),
        Some(3),
        None,
        MessageType::Text,
        vec![],
    )
    .unwrap();
    assert_eq!(decrypt_encrypted_message(&state, &alice(), 20, bad), Err(ChatError::InvalidInput));
    let fault = String::from_utf8(vec![0xff, 0xfe]).unwrap_err().to_string();
    assert_eq!(fault, "invalid utf-8 sequence of 1 bytes from index 0");
    assert_eq!(decrypt_fault(&state, &alice(), 20, bad), Some(fault.clone()));
    assert_eq!(decrypt_fault(&state, &bob(), 20, bad), Some(fault));
    // no fault is named to one who may not read the message, nor where the content opens
    assert_eq!(decrypt_fault(&state, &carol(), 20, bad), None);
    assert_eq!(decrypt_fault(&state, &alice(), 11 + DAY + 1, bad), None);
    assert_eq!(decrypt_fault(&state, &alice(), 20, good), None);
    assert_eq!(decrypt_fault(&state, &alice(), 20, 99), None);
    assert_eq!(
        decrypt_encrypted_message(&state, &alice(), 20, legacy),
        Ok("kept as it was".to_string())
    );
    let opened = decrypt_all_messages_from_channel(&state, &alice(), 20, 3);
    let seen: Vec<u64> = opened.iter().map(|m| m.id).collect();
    assert_eq!(seen, vec![legacy, good]);
    assert_eq!(ids(&get_encrypted_messages_from_channel(&state, 3, 20)), vec![good, bad, legacy]);
}

#[test]
fn key_requests_name_the_message_and_the_key() {
    let mut state = ChatState::new(Some("test_key".to_string()), 1);
    register_user(&mut state, &alice(), 1, "alice".to_string(), None).unwrap();
    for _ in 0..12 {
        post(&mut state, &alice(), 10, "x", None);
    }
    let request = encrypted_symmetric_key_for_message(&state, &alice(), 20, 12).unwrap();
    assert_eq!(request.context, b"message_12".to_vec());
    assert!(request.input.is_empty());
    assert!(request.transport_public_key.is_empty());
    assert_eq!(request.key_name, "test_key");
    assert_eq!(
        encrypted_symmetric_key_for_message(&state, &bob(), 20, 12),
        Err(ChatError::NotAuthorized)
    );
    assert_eq!(
        encrypted_symmetric_key_for_message(&state, &alice(), 20, 13),
        Err(ChatError::NotAuthorized)
    );
    let public = symmetric_key_verification_key_for_encrypted_message(&state);
    assert!(public.context.is_empty());
    assert_eq!(public.key_name, "test_key");
}
