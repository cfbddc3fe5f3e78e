use chat_z_backend::channels::create_encrypted_channel_with_hash;
use chat_z_backend::{
    create_channel, create_encrypted_channel, delete_channel, fix_general_channel,
    force_delete_channel, get_all_channels, get_all_users, get_channel, get_current_user,
    get_stats, get_user, hash_password, join_channel, register_user, update_user,
    verify_password, ChatError, ChatState, CreateChannelRequest, Identity, UpdateUserRequest,
};

fn who(bytes: &[u8]) -> Identity {
    Identity { bytes: bytes.to_vec() }
}

fn alice() -> Identity {
    who(&[1, 1, 1])
}

fn bob() -> Identity {
    who(&[2, 2, 2])
}

fn administrator() -> Identity {
    let principal = candid::Principal::from_text(
        "ouuvn-c7hpi-46km4-ywlnr-j2ten-wldfi-xu53v-vth6u-3qtqr-cmbxu-gqe",
    )
    .unwrap();
    who(principal.as_slice())
}

fn fresh() -> ChatState {
    ChatState::new(None, 1_000)
}

fn open_request(name: &str, description: Option<&str>) -> CreateChannelRequest {
    CreateChannelRequest { name: name.to_string(), description: description.map(|d| d.to_string()) }
}

#[test]
fn genesis_holds_the_general_channel() {
    let state = fresh();
    let general = get_channel(&state, 1).unwrap();
    assert_eq!(general.id, 1);
    assert_eq!(general.name, "General");
    assert_eq!(
        general.description,
        Some("Welcome to Chat Z! This is the main chat channel.".to_string())
    );
    assert_eq!(general.created_by, Identity::anonymous());
    assert_eq!(general.created_at, 1_000);
    assert_eq!(general.members, vec![Identity::anonymous()]);
    assert!(!general.is_encrypted);
    assert_eq!(general.password_hash, None);
    assert_eq!(state.peek_message_id(), 1);
    assert_eq!(state.peek_channel_id(), 2);
    assert_eq!(state.key_name().as_str(), "chat_z_symmetric_key");
    assert_eq!(ChatState::new(Some("other".to_string()), 5).key_name().as_str(), "other");
}

#[test]
fn anonymous_identity_is_the_single_byte_four() {
    assert_eq!(Identity::anonymous().bytes, vec![4u8]);
    assert_eq!(Identity::anonymous().bytes, candid::Principal::anonymous().as_slice().to_vec());
}

#[test]
fn identities_are_ordered_by_length_then_bytes() {
    assert!(who(&[9]).precedes(&who(&[0, 0])));
    assert!(!who(&[0, 0]).precedes(&who(&[9])));
    assert!(who(&[1, 2]).precedes(&who(&[1, 3])));
    assert!(!who(&[1, 3]).precedes(&who(&[1, 2])));
    assert!(!who(&[1, 2]).precedes(&who(&[1, 2])));
    assert!(who(&[]).precedes(&who(&[0])));
    assert!(who(&[1, 2]).same(&who(&[1, 2])));
    assert!(!who(&[1, 2]).same(&who(&[1, 2, 0])));
    let a = candid::Principal::from_slice(&[9]);
    let b = candid::Principal::from_slice(&[0, 0]);
    assert!(a < b);
}

#[test]
fn registration_is_read_back_trimmed() {
    let mut state = fresh();
    let user = register_user(
        &mut state,
        &alice(),
        2_000,
        "  alice \n".to_string(),
        Some(" likes tea ".to_string()),
    )
    .unwrap();
    assert_eq!(user.user_principal, alice());
    assert_eq!(user.username, "alice");
    assert_eq!(user.bio, Some("likes tea".to_string()));
    assert_eq!(user.avatar_url, None);
    assert_eq!(user.joined_at, 2_000);
    assert_eq!(user.last_active, 2_000);
    assert_eq!(user.message_count, 0);
    assert!(user.encrypted_keys.is_empty());
    assert_eq!(get_current_user(&state, &alice()), Some(user.clone()));
    assert_eq!(get_user(&state, &alice()), Some(user));
    assert_eq!(get_user(&state, &bob()), None);
}

#[test]
fn registration_lets_the_user_into_the_general_channel() {
    let mut state = fresh();
    register_user(&mut state, &alice(), 2_000, "alice".to_string(), None).unwrap();
    register_user(&mut state, &bob(), 2_001, "bob".to_string(), None).unwrap();
    let general = get_channel(&state, 1).unwrap();
    assert_eq!(general.members, vec![Identity::anonymous(), alice(), bob()]);
}

#[test]
fn second_registration_is_refused() {
    let mut state = fresh();
    register_user(&mut state, &alice(), 2_000, "alice".to_string(), None).unwrap();
    let again = register_user(&mut state, &alice(), 3_000, "alice2".to_string(), None);
    assert_eq!(again, Err(ChatError::UserAlreadyExists));
    assert_eq!(get_user(&state, &alice()).unwrap().username, "alice");
    assert_eq!(get_channel(&state, 1).unwrap().members.len(), 2);
}

#[test]
fn a_blank_bio_is_left_out_at_registration() {
    let mut state = fresh();
    let user =
        register_user(&mut state, &alice(), 1, "  testuser  ".to_string(), Some(" \t ".to_string()))
            .unwrap();
    assert_eq!(user.username, "testuser");
    assert_eq!(user.bio, None);
    let user =
        register_user(&mut state, &bob(), 1, "bob".to_string(), Some(" Test bio ".to_string()))
            .unwrap();
    assert_eq!(user.bio, Some("Test bio".to_string()));
    assert_eq!(get_current_user(&state, &bob()).unwrap().bio, Some("Test bio".to_string()));
}

#[test]
fn names_are_limited_to_fifty_characters_as_given() {
    let mut state = fresh();
    assert_eq!(
        register_user(&mut state, &alice(), 1, "a".repeat(51), None),
        Err(ChatError::InvalidInput)
    );
    assert_eq!(
        register_user(&mut state, &alice(), 1, "   ".to_string(), None),
        Err(ChatError::InvalidInput)
    );
    assert_eq!(
        register_user(&mut state, &alice(), 1, "".to_string(), None),
        Err(ChatError::InvalidInput)
    );
    // forty-nine letters and two blanks are fifty-one characters as given
    assert_eq!(
        register_user(&mut state, &alice(), 1, format!(" {} ", "a".repeat(49)), None),
        Err(ChatError::InvalidInput)
    );
    // characters count, not bytes
    assert_eq!(
        register_user(&mut state, &alice(), 1, "\u{20AC}".repeat(51), None),
        Err(ChatError::InvalidInput)
    );
    assert_eq!(get_all_users(&state).len(), 0);
    let user = register_user(&mut state, &alice(), 1, "a".repeat(50), None).unwrap();
    assert_eq!(user.username.len(), 50);
    let user = register_user(&mut state, &bob(), 1, "\u{20AC}".repeat(50), None).unwrap();
    assert_eq!(user.username.chars().count(), 50);
    assert_eq!(user.username.len(), 150);
}

#[test]
fn invalid_name_is_reported_before_an_existing_user() {
    let mut state = fresh();
    register_user(&mut state, &alice(), 1, "alice".to_string(), None).unwrap();
    assert_eq!(
        register_user(&mut state, &alice(), 2, "".to_string(), None),
        Err(ChatError::InvalidInput)
    );
}

#[test]
fn unicode_white_space_is_trimmed() {
    let mut state = fresh();
    let user = register_user(
        &mut state,
        &alice(),
        1,
        "\u{3000}\u{00A0}al ice\u{2003}\t".to_string(),
        None,
    )
    .unwrap();
    assert_eq!(user.username, "al ice");
}

#[test]
fn profile_update_changes_what_is_given() {
    let mut state = fresh();
    register_user(&mut state, &alice(), 10, "alice".to_string(), Some("old".to_string())).unwrap();
    let updated = update_user(
        &mut state,
        &alice(),
        20,
        UpdateUserRequest {
            username: Some("  Alice B ".to_string()),
            bio: None,
            avatar_url: Some(" https://example.com/a.png ".to_string()),
        },
    )
    .unwrap();
    assert_eq!(updated.username, "Alice B");
    assert_eq!(updated.bio, Some("old".to_string()));
    assert_eq!(updated.avatar_url, Some("https://example.com/a.png".to_string()));
    assert_eq!(updated.joined_at, 10);
    assert_eq!(updated.last_active, 20);
    assert_eq!(get_user(&state, &alice()), Some(updated));

    let cleared = update_user(
        &mut state,
        &alice(),
        30,
        UpdateUserRequest {
            username: None,
            bio: Some("   ".to_string()),
            avatar_url: Some("".to_string()),
        },
    )
    .unwrap();
    assert_eq!(cleared.username, "Alice B");
    assert_eq!(cleared.bio, None);
    assert_eq!(cleared.avatar_url, None);
    assert_eq!(cleared.last_active, 30);
}

#[test]
fn profile_update_refusals() {
    let mut state = fresh();
    let request =
        || UpdateUserRequest { username: Some("x".to_string()), bio: None, avatar_url: None };
    assert_eq!(update_user(&mut state, &alice(), 1, request()), Err(ChatError::NotFound));
    register_user(&mut state, &alice(), 10, "alice".to_string(), None).unwrap();
    let invalid = update_user(
        &mut state,
        &alice(),
        20,
        UpdateUserRequest {
            username: Some("b".repeat(51)),
            bio: Some("new".to_string()),
            avatar_url: None,
        },
    );
    assert_eq!(invalid, Err(ChatError::InvalidInput));
    let kept = get_user(&state, &alice()).unwrap();
    assert_eq!(kept.username, "alice");
    assert_eq!(kept.bio, None);
    assert_eq!(kept.last_active, 10);
}

#[test]
fn users_are_listed_in_the_order_of_their_identities() {
    let mut state = fresh();
    register_user(&mut state, &who(&[1, 2]), 1, "long-b".to_string(), None).unwrap();
    register_user(&mut state, &who(&[5]), 2, "short".to_string(), None).unwrap();
    register_user(&mut state, &who(&[0, 9]), 3, "long-a".to_string(), None).unwrap();
    let names: Vec<String> = get_all_users(&state).into_iter().map(|u| u.username).collect();
    assert_eq!(names, vec!["short".to_string(), "long-a".to_string(), "long-b".to_string()]);
}

#[test]
fn channel_creation_takes_ids_from_two() {
    let mut state = fresh();
    register_user(&mut state, &alice(), 1, "alice".to_string(), None).unwrap();
    let first =
        create_channel(&mut state, &alice(), 50, open_request("  Tea  ", Some("  about tea ")))
            .unwrap();
    assert_eq!(first.id, 2);
    assert_eq!(first.name, "Tea");
    assert_eq!(first.description, Some("about tea".to_string()));
    assert_eq!(first.created_by, alice());
    assert_eq!(first.created_at, 50);
    assert_eq!(first.members, vec![alice()]);
    assert_eq!(first.message_count, 0);
    assert_eq!(first.last_message_at, None);
    assert!(!first.is_encrypted);
    assert_eq!(first.password_hash, None);
    let second = create_channel(&mut state, &alice(), 51, open_request("Milk", Some("  "))).unwrap();
    assert_eq!(second.id, 3);
    assert_eq!(second.description, None);
    assert_eq!(get_channel(&state, 2), Some(first));
    assert_eq!(get_channel(&state, 1).unwrap().name, "General");
    let ids: Vec<u64> = get_all_channels(&state).into_iter().map(|c| c.id).collect();
    assert_eq!(ids, vec![1, 2, 3]);
}

#[test]
fn channel_creation_refusals() {
    let mut state = fresh();
    assert_eq!(
        create_channel(&mut state, &alice(), 1, open_request("Tea", None)),
        Err(ChatError::NotAuthorized)
    );
    register_user(&mut state, &alice(), 1, "alice".to_string(), None).unwrap();
    assert_eq!(
        create_channel(&mut state, &alice(), 1, open_request("  ", None)),
        Err(ChatError::InvalidInput)
    );
    assert_eq!(
        create_channel(&mut state, &alice(), 1, open_request(&"c".repeat(101), None)),
        Err(ChatError::InvalidInput)
    );
    assert_eq!(state.peek_channel_id(), 2);
    assert!(create_channel(&mut state, &alice(), 1, open_request(&"c".repeat(100), None)).is_ok());
    assert_eq!(state.peek_channel_id(), 3);
}

#[test]
fn encrypted_channels_are_marked() {
    let mut state = fresh();
    register_user(&mut state, &alice(), 1, "alice".to_string(), None).unwrap();
    let open = create_encrypted_channel(
        &mut state,
        &alice(),
        5,
        " Secret ".to_string(),
        Some(" hush ".to_string()),
        None,
    )
    .unwrap();
    assert_eq!(open.name, "\u{1F512} Secret");
    assert_eq!(open.description, Some("hush".to_string()));
    assert!(open.is_encrypted);
    assert_eq!(open.password_hash, None);
    let blank = create_encrypted_channel(
        &mut state,
        &alice(),
        5,
        "Blank".to_string(),
        None,
        Some("   ".to_string()),
    )
    .unwrap();
    assert_eq!(blank.name, "\u{1F512} Blank");
    assert_eq!(blank.password_hash, None);
    let protected = create_encrypted_channel(
        &mut state,
        &alice(),
        5,
        "Vault".to_string(),
        None,
        Some(" password ".to_string()),
    )
    .unwrap();
    assert_eq!(protected.name, "\u{1F512}\u{1F511} Vault");
    assert_eq!(
        protected.password_hash,
        Some("c7f4e2c8526410c789cfe3a2ccd1c52cffd81e930ec64ada9322a0f685787be7".to_string())
    );
    assert_eq!(protected.members, vec![alice()]);
    assert_eq!(
        create_encrypted_channel(&mut state, &bob(), 5, "Vault".to_string(), None, None),
        Err(ChatError::NotAuthorized)
    );
    assert_eq!(
        create_encrypted_channel(&mut state, &alice(), 5, " ".to_string(), None, None),
        Err(ChatError::InvalidInput)
    );
}

#[test]
fn password_hash_is_the_hex_of_the_digest() {
    assert_eq!(
        hash_password("password"),
        "5e884898da28047151d0e56f8dc6292773603d0d6aabbdd62a11ef721d1542d8"
    );
    assert_eq!(
        hash_password(""),
        "e3b0c44298fc1c149afbf4c8996fb92427ae41e4649b934ca495991b7852b855"
    );
    assert!(verify_password(
        "secret",
        "2bb80d537b1da3e38bd30361aa855686bde0eacd7162fef6a25fe97bf527a25b"
    ));
    assert!(!verify_password(
        "Secret",
        "2bb80d537b1da3e38bd30361aa855686bde0eacd7162fef6a25fe97bf527a25b"
    ));
    assert!(!verify_password("secret", "secret"));
    assert!(!verify_password("secret", ""));
    assert!(!verify_password("", ""));
}

#[test]
fn the_password_of_creation_lets_in_as_it_was_given() {
    let mut state = fresh();
    register_user(&mut state, &alice(), 1, "alice".to_string(), None).unwrap();
    register_user(&mut state, &bob(), 1, "bob".to_string(), None).unwrap();
    register_user(&mut state, &who(&[3]), 1, "carol".to_string(), None).unwrap();
    let room = create_encrypted_channel(
        &mut state,
        &alice(),
        5,
        "room".to_string(),
        None,
        Some(" pw ".to_string()),
    )
    .unwrap();
    assert_eq!(room.password_hash, Some(hash_password(" pw ")));
    assert_eq!(join_channel(&mut state, &bob(), room.id, Some(" pw ".to_string())), Ok(()));
    assert_eq!(get_channel(&state, room.id).unwrap().members, vec![alice(), bob()]);
    // a password with another hash does not let in, however alike it looks
    for wrong in ["pw", "pw ", " pw", "  pw  ", "", "   "] {
        assert_eq!(
            join_channel(&mut state, &who(&[3]), room.id, Some(wrong.to_string())),
            Err(ChatError::InvalidPassword)
        );
    }
    assert_eq!(join_channel(&mut state, &who(&[3]), room.id, None), Err(ChatError::InvalidPassword));
    assert_eq!(get_channel(&state, room.id).unwrap().members, vec![alice(), bob()]);
}

#[test]
fn whoever_gives_a_password_with_the_hash_kept_is_let_in() {
    let mut state = fresh();
    register_user(&mut state, &alice(), 1, "alice".to_string(), None).unwrap();
    register_user(&mut state, &bob(), 1, "bob".to_string(), None).unwrap();
    // a channel for which the hash of the empty password is kept
    let room = create_encrypted_channel_with_hash(
        &mut state,
        &alice(),
        5,
        "room".to_string(),
        None,
        Some(hash_password("")),
    )
    .unwrap();
    assert_eq!(room.name, "\u{1F512}\u{1F511} room");
    assert_eq!(join_channel(&mut state, &bob(), room.id, None), Err(ChatError::InvalidPassword));
    assert_eq!(
        join_channel(&mut state, &bob(), room.id, Some(" ".to_string())),
        Err(ChatError::InvalidPassword)
    );
    assert_eq!(join_channel(&mut state, &bob(), room.id, Some("".to_string())), Ok(()));
    assert_eq!(get_channel(&state, room.id).unwrap().members, vec![alice(), bob()]);
    // a hash that no password has lets nobody in
    let shut = create_encrypted_channel_with_hash(
        &mut state,
        &alice(),
        5,
        "shut".to_string(),
        None,
        Some("".to_string()),
    )
    .unwrap();
    assert_eq!(
        join_channel(&mut state, &bob(), shut.id, Some("".to_string())),
        Err(ChatError::InvalidPassword)
    );
}

#[test]
fn joining_a_protected_channel_needs_the_password() {
    let mut state = fresh();
    register_user(&mut state, &alice(), 1, "alice".to_string(), None).unwrap();
    register_user(&mut state, &bob(), 1, "bob".to_string(), None).unwrap();
    let vault = create_encrypted_channel(
        &mut state,
        &alice(),
        5,
        "Vault".to_string(),
        None,
        Some("secret".to_string()),
    )
    .unwrap();
    assert_eq!(join_channel(&mut state, &bob(), vault.id, None), Err(ChatError::InvalidPassword));
    assert_eq!(
        join_channel(&mut state, &bob(), vault.id, Some("wrong".to_string())),
        Err(ChatError::InvalidPassword)
    );
    assert_eq!(get_channel(&state, vault.id).unwrap().members, vec![alice()]);
    assert_eq!(join_channel(&mut state, &bob(), vault.id, Some("secret".to_string())), Ok(()));
    assert_eq!(get_channel(&state, vault.id).unwrap().members, vec![alice(), bob()]);
    assert_eq!(join_channel(&mut state, &bob(), vault.id, Some("secret".to_string())), Ok(()));
    assert_eq!(get_channel(&state, vault.id).unwrap().members, vec![alice(), bob()]);
    // a member who gives a wrong password is refused all the same
    assert_eq!(
        join_channel(&mut state, &bob(), vault.id, Some("wrong".to_string())),
        Err(ChatError::InvalidPassword)
    );
}

#[test]
fn joining_an_open_channel_needs_no_password() {
    let mut state = fresh();
    register_user(&mut state, &alice(), 1, "alice".to_string(), None).unwrap();
    register_user(&mut state, &bob(), 1, "bob".to_string(), None).unwrap();
    let tea = create_channel(&mut state, &alice(), 5, open_request("Tea", None)).unwrap();
    assert_eq!(join_channel(&mut state, &bob(), tea.id, None), Ok(()));
    assert_eq!(join_channel(&mut state, &bob(), tea.id, Some("anything".to_string())), Ok(()));
    assert_eq!(get_channel(&state, tea.id).unwrap().members, vec![alice(), bob()]);
    assert_eq!(join_channel(&mut state, &bob(), 99, None), Err(ChatError::ChannelNotFound));
    assert_eq!(
        join_channel(&mut state, &who(&[7]), tea.id, None),
        Err(ChatError::NotAuthorized)
    );
    assert_eq!(join_channel(&mut state, &who(&[7]), 99, None), Err(ChatError::NotAuthorized));
}

#[test]
fn only_the_creator_deletes_a_channel() {
    let mut state = fresh();
    register_user(&mut state, &alice(), 1, "alice".to_string(), None).unwrap();
    register_user(&mut state, &bob(), 1, "bob".to_string(), None).unwrap();
    let tea = create_channel(&mut state, &alice(), 5, open_request("Tea", None)).unwrap();
    assert_eq!(delete_channel(&mut state, &bob(), tea.id), Err(ChatError::NotAuthorized));
    assert!(get_channel(&state, tea.id).is_some());
    assert_eq!(delete_channel(&mut state, &alice(), 99), Err(ChatError::ChannelNotFound));
    assert_eq!(delete_channel(&mut state, &alice(), tea.id), Ok(()));
    assert_eq!(get_channel(&state, tea.id), None);
    assert_eq!(delete_channel(&mut state, &alice(), tea.id), Err(ChatError::ChannelNotFound));
    // an id that was given out is not given out again
    let milk = create_channel(&mut state, &alice(), 6, open_request("Milk", None)).unwrap();
    assert_eq!(milk.id, 3);
}

#[test]
fn the_general_channel_is_never_deleted() {
    let mut state = fresh();
    register_user(&mut state, &alice(), 1, "alice".to_string(), None).unwrap();
    assert_eq!(delete_channel(&mut state, &alice(), 1), Err(ChatError::NotAuthorized));
    // not even by the identity that created it
    assert_eq!(
        delete_channel(&mut state, &Identity::anonymous(), 1),
        Err(ChatError::NotAuthorized)
    );
    assert_eq!(force_delete_channel(&mut state, &administrator(), 1), Err(ChatError::NotAuthorized));
    assert_eq!(force_delete_channel(&mut state, &alice(), 1), Err(ChatError::NotAuthorized));
    assert!(get_channel(&state, 1).is_some());
}

#[test]
fn the_administrator_deletes_any_other_channel() {
    let mut state = fresh();
    register_user(&mut state, &alice(), 1, "alice".to_string(), None).unwrap();
    let tea = create_channel(&mut state, &alice(), 5, open_request("Tea", None)).unwrap();
    assert_eq!(administrator().bytes.len(), 29);
    assert_eq!(force_delete_channel(&mut state, &alice(), tea.id), Err(ChatError::NotAuthorized));
    assert_eq!(
        force_delete_channel(&mut state, &Identity::anonymous(), tea.id),
        Err(ChatError::NotAuthorized)
    );
    assert!(get_channel(&state, tea.id).is_some());
    assert_eq!(force_delete_channel(&mut state, &administrator(), 99), Err(ChatError::ChannelNotFound));
    assert_eq!(force_delete_channel(&mut state, &administrator(), tea.id), Ok(()));
    assert_eq!(get_channel(&state, tea.id), None);
}

#[test]
fn repair_of_the_general_channel_changes_nothing_that_is_complete() {
    let mut state = fresh();
    register_user(&mut state, &alice(), 1, "alice".to_string(), None).unwrap();
    register_user(&mut state, &bob(), 1, "bob".to_string(), None).unwrap();
    let before = get_channel(&state, 1).unwrap();
    let repaired = fix_general_channel(&mut state).unwrap();
    assert_eq!(repaired, before);
    assert_eq!(get_channel(&state, 1), Some(before));
}

#[test]
fn stats_count_users_messages_and_channels() {
    let mut state = fresh();
    assert_eq!(
        get_stats(&state),
        vec![("users".to_string(), 0), ("messages".to_string(), 0), ("channels".to_string(), 1)]
    );
    register_user(&mut state, &alice(), 1, "alice".to_string(), None).unwrap();
    create_channel(&mut state, &alice(), 5, open_request("Tea", None)).unwrap();
    assert_eq!(
        get_stats(&state),
        vec![("users".to_string(), 1), ("messages".to_string(), 0), ("channels".to_string(), 2)]
    );
}

#[test]
fn white_space_is_what_the_unicode_property_says() {
    let listed = |c: char| {
        let u = c as u32;
        (0x09..=0x0D).contains(&u)
            || u == 0x20
            || u == 0x85
            || u == 0xA0
            || u == 0x1680
            || (0x2000..=0x200A).contains(&u)
            || u == 0x2028
            || u == 0x2029
            || u == 0x202F
            || u == 0x205F
            || u == 0x3000
    };
    let mut state = fresh();
    for u in 0..=0x3100u32 {
        if let Some(c) = char::from_u32(u) {
            let name = format!("{}x{}", c, c);
            let kept = register_user(&mut state, &who(&u.to_be_bytes()), 1, name.clone(), None)
                .unwrap()
                .username;
            if listed(c) {
                assert_eq!(kept, "x");
            } else {
                assert_eq!(kept, name);
            }
        }
    }
}
