use chat_z_backend::{
    create_channel, get_channel, get_message, get_messages, get_stats, get_user, join_channel,
    register_user, send_message, Attachment, ChatError, ChatState, CreateChannelRequest,
    CreateMessageRequest, Identity, MessageType,
};

fn who(bytes: &[u8]) -> Identity {
    Identity { bytes: bytes.to_vec() }
}

fn alice() -> Identity {
    who(&[1, 1, 1])
}

fn bob() -> Identity {
    who(&[2, 2, 2])
}

fn text(content: &str, channel_id: Option<u64>) -> CreateMessageRequest {
    CreateMessageRequest {
        content: content.to_string(),
        channel_id,
        reply_to: None,
        message_type: MessageType::Text,
        attachments: vec![],
    }
}

fn attachment(size: u64) -> Attachment {
    Attachment {
        file_type: "image/png".to_string(),
        data: vec![1, 2, 3],
        filename: "a.png".to_string(),
        size,
    }
}

fn with_attachments(sizes: &[u64]) -> CreateMessageRequest {
    CreateMessageRequest {
        content: "see attached".to_string(),
        channel_id: None,
        reply_to: None,
        message_type: MessageType::Image,
        attachments: sizes.iter().map(|s| attachment(*s)).collect(),
    }
}

/// Alice and Bob registered; Alice has opened channel 2, Bob channel 3.
fn two_channels() -> ChatState {
    let mut state = ChatState::new(None, 1);
    register_user(&mut state, &alice(), 1, "alice".to_string(), None).unwrap();
    register_user(&mut state, &bob(), 1, "bob".to_string(), None).unwrap();
    let a = create_channel(
        &mut state,
        &alice(),
        2,
        CreateChannelRequest { name: "A".to_string(), description: None },
    )
    .unwrap();
    let b = create_channel(
        &mut state,
        &bob(),
        2,
        CreateChannelRequest { name: "B".to_string(), description: None },
    )
    .unwrap();
    assert_eq!((a.id, b.id), (2, 3));
    state
}

#[test]
fn a_message_is_stored_trimmed_and_counted() {
    let mut state = two_channels();
    let message = send_message(
        &mut state,
        &alice(),
        100,
        CreateMessageRequest {
            content: "  Hello, world!\n".to_string(),
            channel_id: Some(2),
            reply_to: Some(7),
            message_type: MessageType::System,
            attachments: vec![attachment(5)],
        },
    )
    .unwrap();
    assert_eq!(message.id, 1);
    assert_eq!(message.author, alice());
    assert_eq!(message.content, "Hello, world!");
    assert_eq!(message.timestamp, 100);
    assert_eq!(message.channel_id, Some(2));
    assert_eq!(message.reply_to, Some(7));
    assert_eq!(message.message_type, MessageType::System);
    assert_eq!(message.attachments, vec![attachment(5)]);
    let user = get_user(&state, &alice()).unwrap();
    assert_eq!(user.message_count, 1);
    assert_eq!(user.last_active, 100);
    let channel = get_channel(&state, 2).unwrap();
    assert_eq!(channel.message_count, 1);
    assert_eq!(channel.last_message_at, Some(100));
    assert_eq!(get_channel(&state, 3).unwrap().message_count, 0);
    let second = send_message(&mut state, &alice(), 101, text("again", None)).unwrap();
    assert_eq!(second.id, 2);
    assert_eq!(get_user(&state, &alice()).unwrap().message_count, 2);
    assert_eq!(get_channel(&state, 2).unwrap().message_count, 1);
    let shown = get_message(&state, 1).unwrap();
    assert_eq!(shown.id, 1);
    assert_eq!(shown.author_username, "alice");
    assert_eq!(shown.content, "Hello, world!");
    assert_eq!(shown.reply_to, Some(7));
    assert_eq!(shown.attachments, vec![attachment(5)]);
    assert_eq!(get_message(&state, 3), None);
    assert_eq!(get_stats(&state)[1], ("messages".to_string(), 2));
}

#[test]
fn content_is_limited_to_two_thousand_characters() {
    let mut state = two_channels();
    assert_eq!(
        send_message(&mut state, &alice(), 5, text(&"a".repeat(2001), None)),
        Err(ChatError::InvalidInput)
    );
    assert_eq!(send_message(&mut state, &alice(), 5, text("", None)), Err(ChatError::InvalidInput));
    assert_eq!(
        send_message(&mut state, &alice(), 5, text(" \t\n", None)),
        Err(ChatError::InvalidInput)
    );
    // the limit is on the content as given
    assert_eq!(
        send_message(&mut state, &alice(), 5, text(&format!("{} ", "a".repeat(2000)), None)),
        Err(ChatError::InvalidInput)
    );
    // characters count, not bytes
    assert_eq!(
        send_message(&mut state, &alice(), 5, text(&"\u{00E9}".repeat(2001), None)),
        Err(ChatError::InvalidInput)
    );
    assert_eq!(state.peek_message_id(), 1);
    let accepted = send_message(&mut state, &alice(), 5, text(&"a".repeat(2000), None)).unwrap();
    assert_eq!(accepted.content.len(), 2000);
    let accented = send_message(&mut state, &alice(), 5, text(&"\u{00E9}".repeat(2000), None));
    assert_eq!(accented.unwrap().content.len(), 4000);
}

#[test]
fn attachments_are_limited_to_ten_million_bytes_together() {
    let mut state = two_channels();
    assert_eq!(
        send_message(&mut state, &alice(), 5, with_attachments(&[10_000_001])),
        Err(ChatError::AttachmentTooLarge)
    );
    assert_eq!(
        send_message(&mut state, &alice(), 5, with_attachments(&[6_000_000, 4_000_001])),
        Err(ChatError::AttachmentTooLarge)
    );
    assert_eq!(
        send_message(&mut state, &alice(), 5, with_attachments(&[u64::MAX, u64::MAX, 2])),
        Err(ChatError::AttachmentTooLarge)
    );
    assert!(send_message(&mut state, &alice(), 5, with_attachments(&[6_000_000, 4_000_000])).is_ok());
    assert!(send_message(&mut state, &alice(), 5, with_attachments(&[10_000_000, 0])).is_ok());
    // the declared size counts, not the data
    assert!(send_message(&mut state, &alice(), 5, with_attachments(&[0])).is_ok());
}

#[test]
fn refusals_come_in_a_fixed_order() {
    let mut state = two_channels();
    let stranger = who(&[9]);
    let mut too_much = with_attachments(&[10_000_001]);
    too_much.content = "".to_string();
    assert_eq!(send_message(&mut state, &stranger, 5, too_much), Err(ChatError::InvalidInput));
    assert_eq!(
        send_message(&mut state, &stranger, 5, with_attachments(&[10_000_001])),
        Err(ChatError::AttachmentTooLarge)
    );
    assert_eq!(send_message(&mut state, &stranger, 5, text("hi", None)), Err(ChatError::NotAuthorized));
}

#[test]
fn only_members_post_to_a_channel() {
    let mut state = two_channels();
    assert_eq!(send_message(&mut state, &bob(), 5, text("hi", Some(2))), Err(ChatError::NotAuthorized));
    assert_eq!(send_message(&mut state, &bob(), 5, text("hi", Some(99))), Err(ChatError::NotAuthorized));
    assert_eq!(get_user(&state, &bob()).unwrap().message_count, 0);
    join_channel(&mut state, &bob(), 2, None).unwrap();
    assert!(send_message(&mut state, &bob(), 5, text("hi", Some(2))).is_ok());
    assert!(send_message(&mut state, &bob(), 6, text("hi all", Some(1))).is_ok());
}

#[test]
fn pages_list_the_newest_first() {
    let mut state = two_channels();
    send_message(&mut state, &alice(), 10, text("first", Some(2))).unwrap();
    send_message(&mut state, &bob(), 15, text("elsewhere", Some(3))).unwrap();
    send_message(&mut state, &alice(), 20, text("second", Some(2))).unwrap();
    send_message(&mut state, &alice(), 30, text("third", Some(2))).unwrap();

    let page = get_messages(&state, Some(2), Some(2), Some(0));
    let contents: Vec<&str> = page.messages.iter().map(|m| m.content.as_str()).collect();
    assert_eq!(contents, vec!["third", "second"]);
    assert_eq!(page.messages[0].timestamp, 30);
    assert_eq!(page.messages[1].timestamp, 20);
    assert_eq!(page.total_count, 3);
    assert!(page.has_more);

    let rest = get_messages(&state, Some(2), Some(2), Some(2));
    let contents: Vec<&str> = rest.messages.iter().map(|m| m.content.as_str()).collect();
    assert_eq!(contents, vec!["first"]);
    assert_eq!(rest.total_count, 3);
    assert!(!rest.has_more);

    let all = get_messages(&state, None, None, None);
    let contents: Vec<&str> = all.messages.iter().map(|m| m.content.as_str()).collect();
    assert_eq!(contents, vec!["third", "second", "elsewhere", "first"]);
    assert_eq!(all.messages[2].author_username, "bob");
    assert_eq!(all.total_count, 4);
    assert!(!all.has_more);

    let none = get_messages(&state, Some(77), None, None);
    assert!(none.messages.is_empty());
    assert_eq!(none.total_count, 0);
    assert!(!none.has_more);
}

#[test]
fn pages_clamp_at_the_end() {
    let mut state = two_channels();
    for t in 0..5u64 {
        send_message(&mut state, &alice(), 100 + t, text("m", None)).unwrap();
    }
    let beyond = get_messages(&state, None, Some(2), Some(5));
    assert!(beyond.messages.is_empty());
    assert_eq!(beyond.total_count, 5);
    assert!(!beyond.has_more);
    let far = get_messages(&state, None, Some(2), Some(u64::MAX));
    assert!(far.messages.is_empty());
    assert!(!far.has_more);
    let tail = get_messages(&state, None, Some(10), Some(3));
    assert_eq!(tail.messages.len(), 2);
    assert!(!tail.has_more);
    let exact = get_messages(&state, None, Some(2), Some(3));
    assert_eq!(exact.messages.len(), 2);
    assert!(!exact.has_more);
    let inner = get_messages(&state, None, Some(2), Some(2));
    assert_eq!(inner.messages.len(), 2);
    assert!(inner.has_more);
    let empty = get_messages(&state, None, Some(0), Some(0));
    assert!(empty.messages.is_empty());
    assert!(empty.has_more);
}

#[test]
fn a_page_holds_fifty_by_default_and_a_hundred_at_most() {
    let mut state = two_channels();
    for t in 0..120u64 {
        send_message(&mut state, &alice(), 100 + t, text("m", None)).unwrap();
    }
    let default = get_messages(&state, None, None, None);
    assert_eq!(default.messages.len(), 50);
    assert_eq!(default.messages[0].id, 120);
    assert_eq!(default.messages[49].id, 71);
    assert_eq!(default.total_count, 120);
    assert!(default.has_more);
    let capped = get_messages(&state, None, Some(1000), Some(10));
    assert_eq!(capped.messages.len(), 100);
    assert_eq!(capped.messages[0].id, 110);
    assert!(capped.has_more);
    let last = get_messages(&state, None, Some(100), Some(20));
    assert_eq!(last.messages.len(), 100);
    assert!(!last.has_more);
}

#[test]
fn messages_of_one_time_come_in_the_order_of_their_ids() {
    let mut state = two_channels();
    send_message(&mut state, &alice(), 50, text("a", None)).unwrap();
    send_message(&mut state, &alice(), 50, text("b", None)).unwrap();
    send_message(&mut state, &alice(), 40, text("c", None)).unwrap();
    send_message(&mut state, &alice(), 50, text("d", None)).unwrap();
    send_message(&mut state, &alice(), 60, text("e", None)).unwrap();
    let page = get_messages(&state, None, None, None);
    let ids: Vec<u64> = page.messages.iter().map(|m| m.id).collect();
    assert_eq!(ids, vec![5, 1, 2, 4, 3]);
}
