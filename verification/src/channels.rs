//! Channels: creation, joining and deletion.
//!
//! A channel without a password hash lets every registered caller in. A
//! channel with one lets in only a caller whose password has that hash. The
//! channel that every user is in is never deleted.

use crate::identity::{anonymous, identity_of_text, parse_identity, Identity};
use crate::model::{
    holds_identity, option_view, result_view, Channel, ChannelView, ChatError, CreateChannelRequest,
};
use crate::password::{hash_password, password_hash};
use crate::state::{
    channel_walk, general_channel_complete, user_walk, valid, ChatState, ChatView,
    GENERAL_CHANNEL,
};
use crate::table::lemma_pushed;
use crate::text::{
    acceptable_text, is_acceptable_text, is_blank, kept_optional, normalize_optional, trim,
    trimmed, trimmed_copy,
};
use crate::users::{enter_channel, entered};
use vstd::prelude::*;
use vstd::string::StringExecFns;

verus! {

/// The most characters that the name of a channel may have as it is given.
pub const MAX_CHANNEL_NAME_CHARS: usize = 100;

/// What the name of an encrypted channel without a password starts with.
pub open spec fn encrypted_mark() -> Seq<char> {
    "\u{1F512} "@
}

/// What the name of an encrypted channel with a password starts with.
pub open spec fn protected_mark() -> Seq<char> {
    "\u{1F512}\u{1F511} "@
}

/// The text of an identity that may delete any channel but the one that every
/// user is in.
pub open spec fn administrator_text() -> Seq<char> {
    "ouuvn-c7hpi-46km4-ywlnr-j2ten-wldfi-xu53v-vth6u-3qtqr-cmbxu-gqe"@
}

/// The channel that creation makes.
pub open spec fn fresh_channel(
    id: u64,
    name: Seq<char>,
    description: Option<Seq<char>>,
    caller: Seq<u8>,
    now: u64,
    is_encrypted: bool,
    password_hash: Option<Seq<char>>,
) -> ChannelView {
    ChannelView {
        id: id,
        name: name,
        description: kept_optional(description),
        created_by: caller,
        created_at: now,
        members: seq![caller],
        message_count: 0,
        last_message_at: None,
        is_encrypted: is_encrypted,
        password_hash: password_hash,
    }
}

/// The state after `channel` is stored under the next id for channels.
pub open spec fn opened_channel(s: ChatView, channel: ChannelView) -> ChatView {
    ChatView {
        channels: s.channels.insert(s.next_channel_id, channel),
        next_channel_id: (s.next_channel_id + 1) as u64,
        ..s
    }
}

/// What creating a channel does: it refuses a name that is blank or longer
/// than a hundred characters, then a caller who is not registered; else it stores
/// an open channel under the next id, with the caller as its only member.
pub open spec fn create_channel_spec(
    s: ChatView,
    caller: Seq<u8>,
    now: u64,
    name: Seq<char>,
    description: Option<Seq<char>>,
) -> (ChatView, Result<ChannelView, ChatError>) {
    if !acceptable_text(name, MAX_CHANNEL_NAME_CHARS as nat) {
        (s, Err(ChatError::InvalidInput))
    } else if !s.users.contains_key(caller) {
        (s, Err(ChatError::NotAuthorized))
    } else {
        let channel = fresh_channel(
            s.next_channel_id,
            trimmed(name),
            description,
            caller,
            now,
            false,
            None,
        );
        (opened_channel(s, channel), Ok(channel))
    }
}

/// The name under which an encrypted channel is kept.
pub open spec fn encrypted_name(name: Seq<char>, protected: bool) -> Seq<char> {
    if protected {
        protected_mark() + trimmed(name)
    } else {
        encrypted_mark() + trimmed(name)
    }
}

/// What creating an encrypted channel does, `password_hash` being the hash
/// of its password, if it has one. The refusals are those of
/// [`create_channel_spec`]; the channel is encrypted and its name is marked.
pub open spec fn create_encrypted_channel_with_hash_spec(
    s: ChatView,
    caller: Seq<u8>,
    now: u64,
    name: Seq<char>,
    description: Option<Seq<char>>,
    password_hash: Option<Seq<char>>,
) -> (ChatView, Result<ChannelView, ChatError>) {
    if !acceptable_text(name, MAX_CHANNEL_NAME_CHARS as nat) {
        (s, Err(ChatError::InvalidInput))
    } else if !s.users.contains_key(caller) {
        (s, Err(ChatError::NotAuthorized))
    } else {
        let channel = fresh_channel(
            s.next_channel_id,
            encrypted_name(name, password_hash is Some),
            description,
            caller,
            now,
            true,
            password_hash,
        );
        (opened_channel(s, channel), Ok(channel))
    }
}

/// The hash that is kept for a password given at creation: none for a
/// password that is left out or blank, else the hash of the password as it
/// was given.
pub open spec fn kept_password_hash(password: Option<Seq<char>>) -> Option<Seq<char>> {
    match password {
        Some(p) => if is_blank(p) {
            None
        } else {
            Some(password_hash(p))
        },
        None => None,
    }
}

/// What creating an encrypted channel does.
pub open spec fn create_encrypted_channel_spec(
    s: ChatView,
    caller: Seq<u8>,
    now: u64,
    name: Seq<char>,
    description: Option<Seq<char>>,
    password: Option<Seq<char>>,
) -> (ChatView, Result<ChannelView, ChatError>) {
    create_encrypted_channel_with_hash_spec(
        s,
        caller,
        now,
        name,
        description,
        kept_password_hash(password),
    )
}

/// Stores a new channel under the next id.
fn open_channel(
    state: &mut ChatState,
    caller: &Identity,
    now: u64,
    name: String,
    description: Option<String>,
    is_encrypted: bool,
    password_hash: Option<String>,
) -> (r: Channel)
    requires
        old(state).inv(),
        old(state)@.next_channel_id < u64::MAX,
    ensures
        final(state).inv(),
        r@ == fresh_channel(
            old(state)@.next_channel_id,
            name@,
            description.deep_view(),
            caller@,
            now,
            is_encrypted,
            password_hash.deep_view(),
        ),
        final(state)@ == opened_channel(old(state)@, r@),
{
    let channel_id = crate::state::next_channel_id(state);
    let mut members: Vec<Identity> = Vec::new();
    members.push(caller.clone());
    let channel = Channel {
        id: channel_id,
        name,
        description: normalize_optional(description),
        created_by: caller.clone(),
        created_at: now,
        members,
        message_count: 0,
        last_message_at: None,
        is_encrypted,
        password_hash,
    };
    assert(channel@.members =~= seq![caller@]);
    let stored = channel.clone();
    state.put_channel(stored);
    proof {
        lemma_opened_channel_valid(old(state)@, channel@);
    }
    channel
}

/// Storing a new channel under the next id keeps a valid state valid.
pub proof fn lemma_opened_channel_valid(s: ChatView, channel: ChannelView)
    requires
        valid(s),
        s.next_channel_id < u64::MAX,
        channel.id == s.next_channel_id,
        channel.message_count == 0,
        channel.members.no_duplicates(),
    ensures
        valid(opened_channel(s, channel)),
{
    let after = opened_channel(s, channel);
    assert(after.channels.dom() =~= s.channels.dom().insert(s.next_channel_id));
}

/// Creates an open channel.
pub fn create_channel(
    state: &mut ChatState,
    caller: &Identity,
    now: u64,
    request: CreateChannelRequest,
) -> (r: Result<Channel, ChatError>)
    requires
        old(state).inv(),
        old(state)@.next_channel_id < u64::MAX,
    ensures
        final(state).inv(),
        final(state)@ == create_channel_spec(
            old(state)@,
            caller@,
            now,
            request.name@,
            request.description.deep_view(),
        ).0,
        result_view(r) == create_channel_spec(
            old(state)@,
            caller@,
            now,
            request.name@,
            request.description.deep_view(),
        ).1,
{
    if !is_acceptable_text(request.name.as_str(), MAX_CHANNEL_NAME_CHARS) {
        return Err(ChatError::InvalidInput);
    }
    if !state.has_user(caller) {
        return Err(ChatError::NotAuthorized);
    }
    let name = trimmed_copy(request.name.as_str());
    Ok(open_channel(state, caller, now, name, request.description, false, None))
}

/// Creates an encrypted channel for which the hash of the password, if
/// there is a password, has been taken already.
pub fn create_encrypted_channel_with_hash(
    state: &mut ChatState,
    caller: &Identity,
    now: u64,
    name: String,
    description: Option<String>,
    password_hash: Option<String>,
) -> (r: Result<Channel, ChatError>)
    requires
        old(state).inv(),
        old(state)@.next_channel_id < u64::MAX,
    ensures
        final(state).inv(),
        final(state)@ == create_encrypted_channel_with_hash_spec(
            old(state)@,
            caller@,
            now,
            name@,
            description.deep_view(),
            password_hash.deep_view(),
        ).0,
        result_view(r) == create_encrypted_channel_with_hash_spec(
            old(state)@,
            caller@,
            now,
            name@,
            description.deep_view(),
            password_hash.deep_view(),
        ).1,
{
    if !is_acceptable_text(name.as_str(), MAX_CHANNEL_NAME_CHARS) {
        return Err(ChatError::InvalidInput);
    }
    if !state.has_user(caller) {
        return Err(ChatError::NotAuthorized);
    }
    let mut marked = if password_hash.is_some() {
        String::from_str("\u{1F512}\u{1F511} ")
    } else {
        String::from_str("\u{1F512} ")
    };
    marked.append(trim(name.as_str()));
    Ok(open_channel(state, caller, now, marked, description, true, password_hash))
}

/// Takes the hash that is kept for a password given at creation.
pub fn hash_of_kept_password(password: &Option<String>) -> (r: Option<String>)
    ensures
        r.deep_view() == kept_password_hash(password.deep_view()),
        r matches Some(hash) ==> hash@.len() == 64,
{
    match password {
        Some(p) => {
            if trim(p.as_str()).is_empty() {
                None
            } else {
                Some(hash_password(p.as_str()))
            }
        },
        None => None,
    }
}

/// Takes the hash of a password given at joining: the password is hashed as
/// it was given.
pub fn hash_of_supplied_password(password: &Option<String>) -> (r: Option<String>)
    ensures
        r.deep_view() == supplied_hash(password.deep_view()),
        r matches Some(hash) ==> hash@.len() == 64,
{
    match password {
        Some(p) => Some(hash_password(p.as_str())),
        None => None,
    }
}

/// Creates an encrypted channel, protected by `password` if one is given
/// that is not blank.
pub fn create_encrypted_channel(
    state: &mut ChatState,
    caller: &Identity,
    now: u64,
    name: String,
    description: Option<String>,
    password: Option<String>,
) -> (r: Result<Channel, ChatError>)
    requires
        old(state).inv(),
        old(state)@.next_channel_id < u64::MAX,
    ensures
        final(state).inv(),
        final(state)@ == create_encrypted_channel_spec(
            old(state)@,
            caller@,
            now,
            name@,
            description.deep_view(),
            password.deep_view(),
        ).0,
        result_view(r) == create_encrypted_channel_spec(
            old(state)@,
            caller@,
            now,
            name@,
            description.deep_view(),
            password.deep_view(),
        ).1,
{
    let password_hash = hash_of_kept_password(&password);
    create_encrypted_channel_with_hash(state, caller, now, name, description, password_hash)
}

/// The channel stored under `channel_id`.
pub fn get_channel(state: &ChatState, channel_id: u64) -> (r: Option<Channel>)
    requires
        state.inv(),
    ensures
        option_view(r) == state@.channels.get(channel_id),
{
    match state.channel(channel_id) {
        Some(channel) => Some(channel.clone()),
        None => None,
    }
}

/// All channels, in ascending order of their ids.
pub open spec fn all_channels(s: ChatView) -> Seq<ChannelView> {
    Seq::new(channel_walk(s).len(), |i: int| s.channels[channel_walk(s)[i]])
}

/// All channels, in ascending order of their ids.
pub fn get_all_channels(state: &ChatState) -> (r: Vec<Channel>)
    requires
        state.inv(),
    ensures
        r.deep_view() == all_channels(state@),
{
    let mut r: Vec<Channel> = Vec::new();
    let n = state.channel_count();
    let mut i: usize = 0;
    while i < n
        invariant
            state.wf(),
            n == channel_walk(state@).len(),
            i <= n,
            r.len() == i,
            forall|j: int| 0 <= j < i ==> r[j]@ == state@.channels[channel_walk(state@)[j]],
        decreases n - i,
    {
        r.push(state.channel_at(i).clone());
        i += 1;
    }
    assert(r.deep_view() =~= all_channels(state@));
    r
}

/// What joining a channel does, `supplied_hash` being the hash of the
/// password that the caller gave, if it gave one. It refuses a caller who is
/// not registered, then a channel that is not there, then, for a channel
/// with a password hash, a caller who gave no password or one with another
/// hash. Else the caller becomes a member, if it was none.
pub open spec fn join_channel_with_hash_spec(
    s: ChatView,
    caller: Seq<u8>,
    channel_id: u64,
    supplied_hash: Option<Seq<char>>,
) -> (ChatView, Result<(), ChatError>) {
    if !s.users.contains_key(caller) {
        (s, Err(ChatError::NotAuthorized))
    } else if !s.channels.contains_key(channel_id) {
        (s, Err(ChatError::ChannelNotFound))
    } else if s.channels[channel_id].password_hash is Some && supplied_hash
        != s.channels[channel_id].password_hash {
        (s, Err(ChatError::InvalidPassword))
    } else {
        (ChatView { channels: entered(s.channels, channel_id, caller), ..s }, Ok(()))
    }
}

/// The hash of a password given at joining, taken of the password as it was
/// given: none where no password was given.
pub open spec fn supplied_hash(password: Option<Seq<char>>) -> Option<Seq<char>> {
    match password {
        Some(p) => Some(password_hash(p)),
        None => None,
    }
}

/// What joining a channel does. A channel with a password hash refuses a
/// caller who gives no password, and one whose password, taken as it was
/// given, has another hash than the one kept.
pub open spec fn join_channel_spec(
    s: ChatView,
    caller: Seq<u8>,
    channel_id: u64,
    password: Option<Seq<char>>,
) -> (ChatView, Result<(), ChatError>) {
    join_channel_with_hash_spec(s, caller, channel_id, supplied_hash(password))
}

/// Lets the caller into a channel, the hash of the password that it gave
/// having been taken already.
pub fn join_channel_with_hash(
    state: &mut ChatState,
    caller: &Identity,
    channel_id: u64,
    supplied_hash: Option<String>,
) -> (r: Result<(), ChatError>)
    requires
        old(state).inv(),
    ensures
        final(state).inv(),
        final(state)@ == join_channel_with_hash_spec(
            old(state)@,
            caller@,
            channel_id,
            supplied_hash.deep_view(),
        ).0,
        r == join_channel_with_hash_spec(
            old(state)@,
            caller@,
            channel_id,
            supplied_hash.deep_view(),
        ).1,
{
    if !state.has_user(caller) {
        return Err(ChatError::NotAuthorized);
    }
    match state.channel(channel_id) {
        Some(channel) => {
            match &channel.password_hash {
                Some(stored) => {
                    match &supplied_hash {
                        Some(supplied) => {
                            if !(*supplied == *stored) {
                                return Err(ChatError::InvalidPassword);
                            }
                        },
                        None => {
                            return Err(ChatError::InvalidPassword);
                        },
                    }
                },
                None => {},
            }
        },
        None => {
            return Err(ChatError::ChannelNotFound);
        },
    }
    enter_channel(state, channel_id, caller);
    proof {
        lemma_entered_valid(old(state)@, channel_id, caller@);
    }
    Ok(())
}

/// Entering a channel keeps a valid state valid.
pub proof fn lemma_entered_valid(s: ChatView, channel_id: u64, who: Seq<u8>)
    requires
        valid(s),
    ensures
        valid(ChatView { channels: entered(s.channels, channel_id, who), ..s }),
{
    let after = ChatView { channels: entered(s.channels, channel_id, who), ..s };
    assert(after.channels.dom() =~= s.channels.dom());
}

/// Lets the caller into a channel.
pub fn join_channel(
    state: &mut ChatState,
    caller: &Identity,
    channel_id: u64,
    password: Option<String>,
) -> (r: Result<(), ChatError>)
    requires
        old(state).inv(),
    ensures
        final(state).inv(),
        final(state)@ == join_channel_spec(old(state)@, caller@, channel_id, password.deep_view()).0,
        r == join_channel_spec(old(state)@, caller@, channel_id, password.deep_view()).1,
        old(state)@.users.contains_key(caller@) && old(state)@.channels.contains_key(channel_id)
            && old(state)@.channels[channel_id].password_hash is Some
            && old(state)@.channels[channel_id].password_hash->0.len() != 64 ==> r == Err::<
            (),
            ChatError,
        >(ChatError::InvalidPassword),
{
    let supplied = hash_of_supplied_password(&password);
    join_channel_with_hash(state, caller, channel_id, supplied)
}

/// What deleting a channel does: it refuses a channel that is not there,
/// then a caller who did not create it, then the channel that every user is
/// in; else the channel is removed.
pub open spec fn delete_channel_spec(s: ChatView, caller: Seq<u8>, channel_id: u64) -> (
    ChatView,
    Result<(), ChatError>,
) {
    if !s.channels.contains_key(channel_id) {
        (s, Err(ChatError::ChannelNotFound))
    } else if s.channels[channel_id].created_by != caller {
        (s, Err(ChatError::NotAuthorized))
    } else if channel_id == GENERAL_CHANNEL {
        (s, Err(ChatError::NotAuthorized))
    } else {
        (ChatView { channels: s.channels.remove(channel_id), ..s }, Ok(()))
    }
}

/// Deletes a channel that the caller created.
pub fn delete_channel(state: &mut ChatState, caller: &Identity, channel_id: u64) -> (r: Result<
    (),
    ChatError,
>)
    requires
        old(state).inv(),
    ensures
        final(state).inv(),
        final(state)@ == delete_channel_spec(old(state)@, caller@, channel_id).0,
        r == delete_channel_spec(old(state)@, caller@, channel_id).1,
{
    match state.channel(channel_id) {
        Some(channel) => {
            if !channel.created_by.same(caller) {
                return Err(ChatError::NotAuthorized);
            }
            if channel_id == GENERAL_CHANNEL {
                return Err(ChatError::NotAuthorized);
            }
        },
        None => {
            return Err(ChatError::ChannelNotFound);
        },
    }
    state.remove_channel(channel_id);
    proof {
        lemma_channel_removed_valid(old(state)@, channel_id);
    }
    Ok(())
}

/// Removing a channel keeps a valid state valid.
pub proof fn lemma_channel_removed_valid(s: ChatView, channel_id: u64)
    requires
        valid(s),
    ensures
        valid(ChatView { channels: s.channels.remove(channel_id), ..s }),
{
    let after = ChatView { channels: s.channels.remove(channel_id), ..s };
    assert(after.channels.dom() =~= s.channels.dom().remove(channel_id));
}

/// What deleting a channel as administrator does, `administrator` being the
/// identity that may do so, if there is one. It refuses every other caller,
/// then the channel that every user is in, then a channel that is not
/// there; else the channel is removed.
pub open spec fn force_delete_channel_as_spec(
    s: ChatView,
    caller: Seq<u8>,
    administrator: Option<Seq<u8>>,
    channel_id: u64,
) -> (ChatView, Result<(), ChatError>) {
    if administrator != Some(caller) {
        (s, Err(ChatError::NotAuthorized))
    } else if channel_id == GENERAL_CHANNEL {
        (s, Err(ChatError::NotAuthorized))
    } else if !s.channels.contains_key(channel_id) {
        (s, Err(ChatError::ChannelNotFound))
    } else {
        (ChatView { channels: s.channels.remove(channel_id), ..s }, Ok(()))
    }
}

/// What deleting a channel as administrator does: the administrator is the
/// identity whose text is [`administrator_text`].
pub open spec fn force_delete_channel_spec(s: ChatView, caller: Seq<u8>, channel_id: u64) -> (
    ChatView,
    Result<(), ChatError>,
) {
    force_delete_channel_as_spec(s, caller, identity_of_text(administrator_text()), channel_id)
}

/// Deletes a channel whoever created it, if the caller is `administrator`.
pub fn force_delete_channel_as(
    state: &mut ChatState,
    caller: &Identity,
    administrator: Option<&Identity>,
    channel_id: u64,
) -> (r: Result<(), ChatError>)
    requires
        old(state).inv(),
    ensures
        final(state).inv(),
        final(state)@ == force_delete_channel_as_spec(
            old(state)@,
            caller@,
            option_view(administrator),
            channel_id,
        ).0,
        r == force_delete_channel_as_spec(
            old(state)@,
            caller@,
            option_view(administrator),
            channel_id,
        ).1,
{
    match administrator {
        Some(admin) => {
            if !admin.same(caller) {
                return Err(ChatError::NotAuthorized);
            }
        },
        None => {
            return Err(ChatError::NotAuthorized);
        },
    }
    if channel_id == GENERAL_CHANNEL {
        return Err(ChatError::NotAuthorized);
    }
    if state.channel(channel_id).is_none() {
        return Err(ChatError::ChannelNotFound);
    }
    state.remove_channel(channel_id);
    proof {
        lemma_channel_removed_valid(old(state)@, channel_id);
    }
    Ok(())
}

/// Deletes a channel whoever created it, if the caller is the administrator.
pub fn force_delete_channel(state: &mut ChatState, caller: &Identity, channel_id: u64) -> (r: Result<
    (),
    ChatError,
>)
    requires
        old(state).inv(),
    ensures
        final(state).inv(),
        final(state)@ == force_delete_channel_spec(old(state)@, caller@, channel_id).0,
        r == force_delete_channel_spec(old(state)@, caller@, channel_id).1,
{
    let administrator = parse_identity(
        "ouuvn-c7hpi-46km4-ywlnr-j2ten-wldfi-xu53v-vth6u-3qtqr-cmbxu-gqe",
    );
    match &administrator {
        Some(admin) => force_delete_channel_as(state, caller, Some(admin), channel_id),
        None => force_delete_channel_as(state, caller, None, channel_id),
    }
}

/// `members` with `who` at its end, if it was not among them.
pub open spec fn add_member(members: Seq<Seq<u8>>, who: Seq<u8>) -> Seq<Seq<u8>> {
    if members.contains(who) {
        members
    } else {
        members.push(who)
    }
}

/// `members` after each of `whom` is added in turn.
pub open spec fn add_members(members: Seq<Seq<u8>>, whom: Seq<Seq<u8>>) -> Seq<Seq<u8>>
    decreases whom.len(),
{
    if whom.len() == 0 {
        members
    } else {
        add_member(add_members(members, whom.drop_last()), whom.last())
    }
}

/// The members of the channel that every user is in, after the repair: the
/// anonymous identity and every user are added, in the order of the users'
/// identities, where they are missing.
pub open spec fn repaired_members(s: ChatView) -> Seq<Seq<u8>> {
    add_members(add_member(s.channels[GENERAL_CHANNEL].members, anonymous()), user_walk(s))
}

/// What the repair of the channel that every user is in does: if the
/// channel is there, it gets the members that are missing and is handed back.
pub open spec fn fix_general_channel_spec(s: ChatView) -> (ChatView, Result<ChannelView, ChatError>) {
    if !s.channels.contains_key(GENERAL_CHANNEL) {
        (s, Err(ChatError::ChannelNotFound))
    } else {
        let repaired = ChannelView { members: repaired_members(s), ..s.channels[GENERAL_CHANNEL] };
        (ChatView { channels: s.channels.insert(GENERAL_CHANNEL, repaired), ..s }, Ok(repaired))
    }
}

/// What adding members keeps and brings: nobody becomes a member twice.
pub proof fn lemma_add_members(members: Seq<Seq<u8>>, whom: Seq<Seq<u8>>)
    ensures
        forall|w: Seq<u8>| #[trigger]
            add_members(members, whom).contains(w) <==> members.contains(w) || whom.contains(w),
        members.no_duplicates() ==> add_members(members, whom).no_duplicates(),
    decreases whom.len(),
{
    if whom.len() > 0 {
        let front = whom.drop_last();
        let last = whom.last();
        let sofar = add_members(members, front);
        lemma_add_members(members, front);
        assert(whom =~= front.push(last));
        assert forall|w: Seq<u8>| #[trigger]
            add_members(members, whom).contains(w) <==> members.contains(w) || whom.contains(w) by {
            lemma_pushed(front, last, w);
            lemma_pushed(sofar, last, w);
            assert(sofar.contains(w) <==> members.contains(w) || front.contains(w));
        }
    }
}

/// After the repair the channel that every user is in is complete, and the
/// state is as valid as before.
pub proof fn lemma_fix_general_channel(s: ChatView)
    requires
        valid(s),
        s.channels.contains_key(GENERAL_CHANNEL),
    ensures
        valid(fix_general_channel_spec(s).0),
        general_channel_complete(fix_general_channel_spec(s).0),
{
    let after = fix_general_channel_spec(s).0;
    let members = s.channels[GENERAL_CHANNEL].members;
    assert(after.channels.dom() =~= s.channels.dom());
    lemma_add_members(add_member(members, anonymous()), user_walk(s));
    lemma_pushed(members, anonymous(), anonymous());
    crate::table::lemma_listing_exists::<Identity>(s.users.dom());
    assert forall|k: Seq<u8>| #[trigger] after.users.contains_key(k) implies after.channels[GENERAL_CHANNEL].members.contains(
        k,
    ) by {
        assert(s.users.dom().contains(k));
        assert(user_walk(s).contains(k));
    }
}

/// Adds `who` to `members` unless it is among them.
fn push_member(members: &mut Vec<Identity>, who: &Identity)
    ensures
        final(members).deep_view() == add_member(old(members).deep_view(), who@),
{
    if !holds_identity(members, who) {
        members.push(who.clone());
        assert(members.deep_view() =~= old(members).deep_view().push(who@));
    }
}

/// Repairs the channel that every user is in: the anonymous identity and
/// every user become members, where they were none.
pub fn fix_general_channel(state: &mut ChatState) -> (r: Result<Channel, ChatError>)
    requires
        old(state).inv(),
    ensures
        final(state).inv(),
        final(state)@ == fix_general_channel_spec(old(state)@).0,
        result_view(r) == fix_general_channel_spec(old(state)@).1,
        r is Ok ==> general_channel_complete(final(state)@),
{
    let mut general = match state.channel(GENERAL_CHANNEL) {
        Some(channel) => channel.clone(),
        None => {
            return Err(ChatError::ChannelNotFound);
        },
    };
    let ghost walk = user_walk(state@);
    let ghost start = add_member(general@.members, anonymous());
    let mut members: Vec<Identity> = Vec::new();
    core::mem::swap(&mut members, &mut general.members);
    let anonymous_identity = Identity::anonymous();
    push_member(&mut members, &anonymous_identity);
    let n = state.user_count();
    let mut i: usize = 0;
    assert(walk.take(0) =~= Seq::<Seq<u8>>::empty());
    while i < n
        invariant
            state.wf(),
            state@ == old(state)@,
            valid(state@),
            walk == user_walk(state@),
            n == walk.len(),
            i <= n,
            members.deep_view() == add_members(start, walk.take(i as int)),
        decreases n - i,
    {
        let user = state.user_at(i);
        assert(walk.take(i + 1).drop_last() =~= walk.take(i as int));
        assert(walk.take(i + 1).last() == walk[i as int]);
        assert(user@.user_principal == walk[i as int]);
        push_member(&mut members, &user.user_principal);
        i += 1;
    }
    assert(walk.take(i as int) =~= walk);
    general.members = members;
    let stored = general.clone();
    state.put_channel(stored);
    proof {
        lemma_fix_general_channel(old(state)@);
    }
    Ok(general)
}

} // verus!
