use chat_z_backend::{
    Attachment, Channel, ChatError, CreateChannelRequest, CreateMessageRequest, EncryptedMessage,
    Identity, Message, MessageIds, MessageType, MessageWithAuthor, PaginatedMessages,
    UpdateUserRequest, User,
};
use std::collections::HashMap;

fn identity_of(bytes: &[u8]) -> Identity {
    Identity { bytes: bytes.to_vec() }
}

fn mock_caller() -> Identity {
    identity_of(&[0, 0, 0, 0, 0, 0xf0, 0x10, 0x3e, 1, 1])
}

fn mock_time() -> u64 {
    1234567890000000000 // Mock timestamp in nanoseconds
}

#[test]
fn test_user_registration() {
    let username = "testuser".to_string();
    let bio = Some("Test bio".to_string());

    let user = User {
        user_principal: mock_caller(),
        username: username.clone(),
        avatar_url: None,
        bio: bio.clone(),
        joined_at: mock_time(),
        message_count: 0,
        last_active: mock_time(),
        encrypted_keys: HashMap::new(),
    };

    assert_eq!(user.username, username);
    assert_eq!(user.bio, bio);
    assert_eq!(user.message_count, 0);
    assert!(user.encrypted_keys.is_empty());
}

#[test]
fn test_channel_creation() {
    // Test regular channel creation
    let channel = Channel {
        id: 1,
        name: "Test Channel".to_string(),
        description: Some("A test channel".to_string()),
        created_by: mock_caller(),
        created_at: mock_time(),
        members: vec![mock_caller()],
        message_count: 0,
        last_message_at: None,
        is_encrypted: false,
        password_hash: None,
    };

    assert_eq!(channel.name, "Test Channel");
    assert!(!channel.is_encrypted);
    assert_eq!(channel.members.len(), 1);
    assert!(channel.members.contains(&mock_caller()));
}

#[test]
fn test_encrypted_channel_creation() {
    // Test encrypted channel creation
    let channel = Channel {
        id: 2,
        name: "ðŸ”’ Secret Channel".to_string(),
        description: Some("An encrypted channel".to_string()),
        created_by: mock_caller(),
        created_at: mock_time(),
        members: vec![mock_caller()],
        message_count: 0,
        last_message_at: None,
        is_encrypted: true,
        password_hash: None,
    };

    assert_eq!(channel.name, "ðŸ”’ Secret Channel");
    assert!(channel.is_encrypted);
    assert!(channel.name.starts_with("ðŸ”’"));
}

#[test]
fn test_regular_message_creation() {
    let message = Message {
        id: 1,
        author: mock_caller(),
        content: "Hello, world!".to_string(),
        timestamp: mock_time(),
        channel_id: None,
        reply_to: None,
        message_type: MessageType::Text,
        attachments: vec![],
    };

    assert_eq!(message.content, "Hello, world!");
    assert_eq!(message.author, mock_caller());
    assert_eq!(message.message_type, MessageType::Text);
    assert!(message.attachments.is_empty());
}

#[test]
fn test_encrypted_message_creation() {
    let current_time = mock_time();
    let expires_at = current_time + (24 * 60 * 60 * 1_000_000_000); // 24 hours later

    let encrypted_message = EncryptedMessage {
        id: 1,
        encrypted_content: "encrypted_content_here".to_string(),
        author: mock_caller(),
        timestamp: current_time,
        expires_at,
        channel_id: Some(2), // Encrypted channel
        reply_to: None,
        message_type: MessageType::Text,
        shared_with: vec![],
        attachments: vec![],
    };

    assert_eq!(encrypted_message.encrypted_content, "encrypted_content_here");
    assert_eq!(encrypted_message.author, mock_caller());
    assert!(encrypted_message.shared_with.is_empty());
    assert_eq!(encrypted_message.expires_at, expires_at);
}

#[test]
fn test_encrypted_message_authorization() {
    let owner = mock_caller();
    let other_user = identity_of(&[0, 0, 0, 0, 0, 0xf0, 0x13, 0x6c, 1, 1]);
    let shared_user = identity_of(&[0, 0, 0, 0, 0, 0xf0, 0x7e, 0x74, 1, 1]);

    let encrypted_message = EncryptedMessage {
        id: 1,
        encrypted_content: "secret".to_string(),
        author: owner.clone(),
        timestamp: mock_time(),
        expires_at: mock_time() + (24 * 60 * 60 * 1_000_000_000),
        channel_id: None,
        reply_to: None,
        message_type: MessageType::Text,
        shared_with: vec![shared_user.clone()],
        attachments: vec![],
    };

    // Owner should be authorized
    assert!(encrypted_message.is_authorized(&owner));

    // Shared user should be authorized
    assert!(encrypted_message.is_authorized(&shared_user));

    // Other user should not be authorized
    assert!(!encrypted_message.is_authorized(&other_user));
}

#[test]
fn test_encrypted_message_expiration() {
    let current_time = mock_time();
    let past_time = current_time - 1000; // 1 second ago
    let future_time = current_time + (24 * 60 * 60 * 1_000_000_000); // 24 hours later

    let expired_message = EncryptedMessage {
        id: 1,
        encrypted_content: "expired".to_string(),
        author: mock_caller(),
        timestamp: past_time,
        expires_at: past_time + 1000,
        channel_id: None,
        reply_to: None,
        message_type: MessageType::Text,
        shared_with: vec![],
        attachments: vec![],
    };

    // a message is good up to and at the time of its expiry, and expired after it
    assert!(!expired_message.is_expired(current_time));
    assert!(expired_message.is_expired(current_time + 1));

    // Non-expired message
    let valid_message = EncryptedMessage {
        id: 2,
        encrypted_content: "valid".to_string(),
        author: mock_caller(),
        timestamp: current_time,
        expires_at: future_time,
        channel_id: None,
        reply_to: None,
        message_type: MessageType::Text,
        shared_with: vec![],
        attachments: vec![],
    };

    assert!(!valid_message.is_expired(current_time));
}

#[test]
fn test_message_ids_structure() {
    let mut message_ids = MessageIds { ids: vec![] };

    // Add some message IDs
    message_ids.ids.push(1);
    message_ids.ids.push(2);
    message_ids.ids.push(3);

    assert_eq!(message_ids.ids.len(), 3);
    assert!(message_ids.ids.contains(&1));
    assert!(message_ids.ids.contains(&2));
    assert!(message_ids.ids.contains(&3));

    // Test iterator
    let collected: Vec<_> = message_ids.iter().collect();
    assert_eq!(collected.len(), 3);
}

#[test]
fn test_attachment_structure() {
    let attachment = Attachment {
        file_type: "image/png".to_string(),
        data: vec![1, 2, 3, 4, 5],
        filename: "test.png".to_string(),
        size: 5,
    };

    assert_eq!(attachment.file_type, "image/png");
    assert_eq!(attachment.filename, "test.png");
    assert_eq!(attachment.size, 5);
    assert_eq!(attachment.data, vec![1, 2, 3, 4, 5]);
}

#[test]
fn test_chat_error_enum() {
    // Test that all error variants exist and can be created
    let errors = vec![
        ChatError::NotFound,
        ChatError::NotAuthorized,
        ChatError::InvalidInput,
        ChatError::UserAlreadyExists,
        ChatError::ChannelNotFound,
        ChatError::MessageTooLarge,
        ChatError::AttachmentTooLarge,
    ];

    assert_eq!(errors.len(), 7);

    // Test debug formatting
    assert_eq!(format!("{:?}", ChatError::NotFound), "NotFound");
    assert_eq!(format!("{:?}", ChatError::NotAuthorized), "NotAuthorized");
}

#[test]
fn test_message_type_enum() {
    let text_type = MessageType::Text;
    let image_type = MessageType::Image;
    let system_type = MessageType::System;

    // Test that variants can be compared
    assert_ne!(text_type, image_type);
    assert_ne!(image_type, system_type);
    assert_eq!(text_type, MessageType::Text);
}

#[test]
fn test_create_message_request() {
    let request = CreateMessageRequest {
        content: "Hello, world!".to_string(),
        channel_id: Some(1),
        reply_to: None,
        message_type: MessageType::Text,
        attachments: vec![],
    };

    assert_eq!(request.content, "Hello, world!");
    assert_eq!(request.channel_id, Some(1));
    assert_eq!(request.reply_to, None);
    assert_eq!(request.message_type, MessageType::Text);
    assert!(request.attachments.is_empty());
}

#[test]
fn test_create_channel_request() {
    let request = CreateChannelRequest {
        name: "Test Channel".to_string(),
        description: Some("A test channel".to_string()),
    };

    assert_eq!(request.name, "Test Channel");
    assert_eq!(request.description, Some("A test channel".to_string()));
}

#[test]
fn test_update_user_request() {
    let request = UpdateUserRequest {
        username: Some("newusername".to_string()),
        bio: Some("New bio".to_string()),
        avatar_url: Some("https://example.com/avatar.png".to_string()),
    };

    assert_eq!(request.username, Some("newusername".to_string()));
    assert_eq!(request.bio, Some("New bio".to_string()));
    assert_eq!(request.avatar_url, Some("https://example.com/avatar.png".to_string()));
}

#[test]
fn test_message_with_author() {
    let message_with_author = MessageWithAuthor {
        id: 1,
        author: mock_caller(),
        author_username: "testuser".to_string(),
        content: "Hello, world!".to_string(),
        timestamp: mock_time(),
        reply_to: None,
        message_type: MessageType::Text,
        attachments: vec![],
    };

    assert_eq!(message_with_author.id, 1);
    assert_eq!(message_with_author.author_username, "testuser");
    assert_eq!(message_with_author.content, "Hello, world!");
}

#[test]
fn test_paginated_messages() {
    let messages = vec![
        MessageWithAuthor {
            id: 1,
            author: mock_caller(),
            author_username: "user1".to_string(),
            content: "Message 1".to_string(),
            timestamp: mock_time(),
            reply_to: None,
            message_type: MessageType::Text,
            attachments: vec![],
        },
        MessageWithAuthor {
            id: 2,
            author: mock_caller(),
            author_username: "user1".to_string(),
            content: "Message 2".to_string(),
            timestamp: mock_time() + 1000,
            reply_to: None,
            message_type: MessageType::Text,
            attachments: vec![],
        },
    ];

    let paginated = PaginatedMessages { messages: messages.clone(), total_count: 2, has_more: false };

    assert_eq!(paginated.messages.len(), 2);
    assert_eq!(paginated.total_count, 2);
    assert!(!paginated.has_more);
    assert_eq!(paginated.messages[0].content, "Message 1");
    assert_eq!(paginated.messages[1].content, "Message 2");
}

#[test]
fn test_vetkey_preparation() {
    let mock_key_name = "test_key".to_string();

    assert!(!mock_key_name.is_empty());
    assert_eq!(mock_key_name, "test_key");
}

#[test]
fn test_large_message_content() {
    // Test that we can handle messages up to the limit
    let large_content = "a".repeat(4000); // Max for encrypted messages

    let encrypted_message = EncryptedMessage {
        id: 1,
        encrypted_content: large_content.clone(),
        author: mock_caller(),
        timestamp: 1234567890000000000,
        expires_at: 1234567890000000000 + (24 * 60 * 60 * 1_000_000_000),
        channel_id: None,
        reply_to: None,
        message_type: MessageType::Text,
        shared_with: vec![],
        attachments: vec![],
    };

    assert_eq!(encrypted_message.encrypted_content.len(), 4000);
}

#[test]
fn test_max_shared_users() {
    let mut shared_users = Vec::new();

    // Create 50 users (the maximum allowed)
    for i in 0..50 {
        shared_users.push(
            candid::Principal::from_text(&format!("user{}-aaaaa-aaaah-qcnwa-cai", i))
                .map(|p| identity_of(p.as_slice()))
                .unwrap_or(Identity::anonymous()),
        );
    }

    let encrypted_message = EncryptedMessage {
        id: 1,
        encrypted_content: "shared with many".to_string(),
        author: mock_caller(),
        timestamp: 1234567890000000000,
        expires_at: 1234567890000000000 + (24 * 60 * 60 * 1_000_000_000),
        channel_id: None,
        reply_to: None,
        message_type: MessageType::Text,
        shared_with: shared_users,
        attachments: vec![],
    };

    assert_eq!(encrypted_message.shared_with.len(), 50);
}

#[test]
fn test_message_ids_performance() {
    let mut message_ids = MessageIds { ids: vec![] };

    // Add 500 message IDs (max per user)
    for i in 1..=500 {
        message_ids.ids.push(i);
    }

    assert_eq!(message_ids.ids.len(), 500);

    // Test that we can efficiently check if an ID exists
    assert!(message_ids.ids.contains(&250));
    assert!(!message_ids.ids.contains(&501));
}

#[test]
fn test_invalid_message_content_lengths() {
    // Test empty content
    assert!("".trim().is_empty());

    // Test content that's too long for regular messages (>2000)
    let too_long = "a".repeat(2001);
    assert!(too_long.len() > 2000);

    // Test content that's too long for encrypted messages (>4000)
    let way_too_long = "a".repeat(4001);
    assert!(way_too_long.len() > 4000);
}

#[test]
fn test_invalid_username_lengths() {
    // Test empty username
    assert!("".trim().is_empty());

    // Test username that's too long (>50)
    let too_long_username = "a".repeat(51);
    assert!(too_long_username.len() > 50);
}

#[test]
fn test_invalid_channel_name_lengths() {
    // Test empty channel name
    assert!("".trim().is_empty());

    // Test channel name that's too long (>100)
    let too_long_name = "a".repeat(101);
    assert!(too_long_name.len() > 100);
}
