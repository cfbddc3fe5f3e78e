//! Registration and profiles.

use crate::identity::Identity;
use crate::model::{
    holds_identity, option_view, result_view, Channel, ChannelView, ChatError,
    UpdateUserRequest, User, UserView,
};
use crate::state::{user_walk, valid, ChatState, ChatView, GENERAL_CHANNEL};
use crate::text::{
    acceptable_text, is_acceptable_text, kept_optional, normalize_optional, trimmed,
    trimmed_copy, trimmed_or_absent,
};
use std::collections::HashMap;
use vstd::prelude::*;

verus! {

/// The most characters that a user name may have as it is given.
pub const MAX_USERNAME_CHARS: usize = 50;

/// `channel` with `who` among its members: added at the end if it was not
/// there.
pub open spec fn with_member(channel: ChannelView, who: Seq<u8>) -> ChannelView {
    if channel.members.contains(who) {
        channel
    } else {
        ChannelView { members: channel.members.push(who), ..channel }
    }
}

/// `channels` after `who` has entered channel `id`, if there is such a channel.
pub open spec fn entered(channels: Map<u64, ChannelView>, id: u64, who: Seq<u8>) -> Map<
    u64,
    ChannelView,
> {
    if channels.contains_key(id) {
        channels.insert(id, with_member(channels[id], who))
    } else {
        channels
    }
}

/// The user that registration creates.
pub open spec fn fresh_user(caller: Seq<u8>, now: u64, username: Seq<char>, bio: Option<Seq<char>>) -> UserView {
    UserView {
        user_principal: caller,
        username: trimmed(username),
        avatar_url: None,
        bio: kept_optional(bio),
        joined_at: now,
        message_count: 0,
        last_active: now,
        encrypted_keys: Map::empty(),
    }
}

/// What registration does: it refuses a name that is blank or longer than
/// fifty characters, then a caller who is registered already; else it stores
/// the new user, with the name and the bio trimmed, and lets it into the
/// channel that every user is in. A bio of which nothing is left is absent.
pub open spec fn register_user_spec(
    s: ChatView,
    caller: Seq<u8>,
    now: u64,
    username: Seq<char>,
    bio: Option<Seq<char>>,
) -> (ChatView, Result<UserView, ChatError>) {
    if !acceptable_text(username, MAX_USERNAME_CHARS as nat) {
        (s, Err(ChatError::InvalidInput))
    } else if s.users.contains_key(caller) {
        (s, Err(ChatError::UserAlreadyExists))
    } else {
        let user = fresh_user(caller, now, username, bio);
        (
            ChatView {
                users: s.users.insert(caller, user),
                channels: entered(s.channels, GENERAL_CHANNEL, caller),
                ..s
            },
            Ok(user),
        )
    }
}

/// Lets `who` into channel `id`, if there is such a channel.
pub(crate) fn enter_channel(state: &mut ChatState, id: u64, who: &Identity)
    requires
        old(state).wf(),
    ensures
        final(state).wf(),
        final(state)@ == (ChatView {
            channels: entered(old(state)@.channels, id, who@),
            ..old(state)@
        }),
{
    let let_in = |channel: &Channel| -> (changed: Channel)
        ensures
            changed@ == with_member(channel@, who@),
        {
            let mut changed = channel.clone();
            if !holds_identity(&changed.members, who) {
                changed.members.push(who.clone());
                assert(changed@.members =~= channel@.members.push(who@));
            }
            changed
        };
    let _ = state.change_channel(id, let_in);
}

/// Registers the caller under `username`.
pub fn register_user(
    state: &mut ChatState,
    caller: &Identity,
    now: u64,
    username: String,
    bio: Option<String>,
) -> (r: Result<User, ChatError>)
    requires
        old(state).inv(),
    ensures
        final(state).inv(),
        final(state)@ == register_user_spec(old(state)@, caller@, now, username@, bio.deep_view()).0,
        result_view(r) == register_user_spec(old(state)@, caller@, now, username@, bio.deep_view()).1,
{
    if !is_acceptable_text(username.as_str(), MAX_USERNAME_CHARS) {
        return Err(ChatError::InvalidInput);
    }
    if state.has_user(caller) {
        return Err(ChatError::UserAlreadyExists);
    }
    let user = User {
        user_principal: caller.clone(),
        username: trimmed_copy(username.as_str()),
        avatar_url: None,
        bio: normalize_optional(bio),
        joined_at: now,
        message_count: 0,
        last_active: now,
        encrypted_keys: HashMap::new(),
    };
    let stored = user.clone();
    state.put_user(stored);
    enter_channel(state, GENERAL_CHANNEL, caller);
    proof {
        lemma_register_user_valid(old(state)@, caller@, now, username@, bio.deep_view());
    }
    Ok(user)
}

/// Registration keeps a valid state valid.
pub proof fn lemma_register_user_valid(
    s: ChatView,
    caller: Seq<u8>,
    now: u64,
    username: Seq<char>,
    bio: Option<Seq<char>>,
)
    requires
        valid(s),
    ensures
        valid(register_user_spec(s, caller, now, username, bio).0),
{
    let after = register_user_spec(s, caller, now, username, bio).0;
    assert(after.users.dom() =~= s.users.dom() || after.users.dom() =~= s.users.dom().insert(caller));
    assert(after.channels.dom() =~= s.channels.dom());
}

/// The text of a profile field after an update: the field stays where the
/// request leaves it out; else it is trimmed, and absent if nothing is left.
pub open spec fn updated_field(current: Option<Seq<char>>, requested: Option<Seq<char>>) -> Option<
    Seq<char>,
> {
    match requested {
        Some(text) => trimmed_or_absent(text),
        None => current,
    }
}

/// What a profile update does: it refuses a caller who is not registered,
/// then a new name that is blank or longer than fifty characters; else it stores
/// the changed profile, with the time of the call as the time of last
/// activity.
pub open spec fn update_user_spec(
    s: ChatView,
    caller: Seq<u8>,
    now: u64,
    username: Option<Seq<char>>,
    bio: Option<Seq<char>>,
    avatar_url: Option<Seq<char>>,
) -> (ChatView, Result<UserView, ChatError>) {
    if !s.users.contains_key(caller) {
        (s, Err(ChatError::NotFound))
    } else if username is Some && !acceptable_text(username->0, MAX_USERNAME_CHARS as nat) {
        (s, Err(ChatError::InvalidInput))
    } else {
        let user = s.users[caller];
        let updated = UserView {
            username: match username {
                Some(name) => trimmed(name),
                None => user.username,
            },
            bio: updated_field(user.bio, bio),
            avatar_url: updated_field(user.avatar_url, avatar_url),
            last_active: now,
            ..user
        };
        (ChatView { users: s.users.insert(caller, updated), ..s }, Ok(updated))
    }
}

/// Changes the profile of the caller.
pub fn update_user(state: &mut ChatState, caller: &Identity, now: u64, request: UpdateUserRequest) -> (r:
    Result<User, ChatError>)
    requires
        old(state).inv(),
    ensures
        final(state).inv(),
        final(state)@ == update_user_spec(
            old(state)@,
            caller@,
            now,
            request.username.deep_view(),
            request.bio.deep_view(),
            request.avatar_url.deep_view(),
        ).0,
        result_view(r) == update_user_spec(
            old(state)@,
            caller@,
            now,
            request.username.deep_view(),
            request.bio.deep_view(),
            request.avatar_url.deep_view(),
        ).1,
{
    if !state.has_user(caller) {
        return Err(ChatError::NotFound);
    }
    let UpdateUserRequest { username, bio, avatar_url } = request;
    let new_name = match username {
        Some(name) => {
            if !is_acceptable_text(name.as_str(), MAX_USERNAME_CHARS) {
                return Err(ChatError::InvalidInput);
            }
            Some(trimmed_copy(name.as_str()))
        },
        None => None,
    };
    let revise = |user: &User| -> (changed: User)
        ensures
            changed@ == (UserView {
                username: match username {
                    Some(name) => trimmed(name@),
                    None => user@.username,
                },
                bio: updated_field(user@.bio, bio.deep_view()),
                avatar_url: updated_field(user@.avatar_url, avatar_url.deep_view()),
                last_active: now,
                ..user@
            }),
        {
            let mut changed = user.clone();
            match new_name {
                Some(name) => {
                    changed.username = name;
                },
                None => {},
            }
            match bio {
                Some(text) => {
                    changed.bio = normalize_optional(Some(text));
                },
                None => {},
            }
            match avatar_url {
                Some(text) => {
                    changed.avatar_url = normalize_optional(Some(text));
                },
                None => {},
            }
            changed.last_active = now;
            changed
        };
    let _ = state.change_user(caller, revise);
    proof {
        lemma_update_user_valid(
            old(state)@,
            caller@,
            now,
            request.username.deep_view(),
            request.bio.deep_view(),
            request.avatar_url.deep_view(),
        );
    }
    match get_user(state, caller) {
        Some(user) => Ok(user),
        None => Err(ChatError::NotFound),
    }
}

/// A profile update keeps a valid state valid.
pub proof fn lemma_update_user_valid(
    s: ChatView,
    caller: Seq<u8>,
    now: u64,
    username: Option<Seq<char>>,
    bio: Option<Seq<char>>,
    avatar_url: Option<Seq<char>>,
)
    requires
        valid(s),
    ensures
        valid(update_user_spec(s, caller, now, username, bio, avatar_url).0),
{
    let after = update_user_spec(s, caller, now, username, bio, avatar_url).0;
    assert(after.users.dom() =~= s.users.dom());
}

/// The user registered as `principal`.
pub fn get_user(state: &ChatState, principal: &Identity) -> (r: Option<User>)
    requires
        state.inv(),
    ensures
        option_view(r) == state@.users.get(principal@),
{
    match state.user(principal) {
        Some(user) => Some(user.clone()),
        None => None,
    }
}

/// The user that the caller is registered as.
pub fn get_current_user(state: &ChatState, caller: &Identity) -> (r: Option<User>)
    requires
        state.inv(),
    ensures
        option_view(r) == state@.users.get(caller@),
{
    get_user(state, caller)
}

/// All users, in the order of their identities.
pub open spec fn all_users(s: ChatView) -> Seq<UserView> {
    Seq::new(user_walk(s).len(), |i: int| s.users[user_walk(s)[i]])
}

/// All users, in the order of their identities.
pub fn get_all_users(state: &ChatState) -> (r: Vec<User>)
    requires
        state.inv(),
    ensures
        r.deep_view() == all_users(state@),
{
    let mut r: Vec<User> = Vec::new();
    let n = state.user_count();
    let mut i: usize = 0;
    while i < n
        invariant
            state.wf(),
            n == user_walk(state@).len(),
            i <= n,
            r.len() == i,
            forall|j: int| 0 <= j < i ==> r[j]@ == state@.users[user_walk(state@)[j]],
        decreases n - i,
    {
        r.push(state.user_at(i).clone());
        i += 1;
    }
    assert(r.deep_view() =~= all_users(state@));
    r
}

/// `users` after `who` has posted a message at time `now`.
pub open spec fn posted(users: Map<Seq<u8>, UserView>, who: Seq<u8>, now: u64) -> Map<
    Seq<u8>,
    UserView,
> {
    if users.contains_key(who) {
        users.insert(
            who,
            UserView {
                message_count: (users[who].message_count + 1) as u64,
                last_active: now,
                ..users[who]
            },
        )
    } else {
        users
    }
}

/// Counts one message more for `who`, posted at time `now`.
pub(crate) fn record_post(state: &mut ChatState, who: &Identity, now: u64)
    requires
        old(state).wf(),
        old(state)@.users.contains_key(who@) ==> old(state)@.users[who@].message_count < u64::MAX,
    ensures
        final(state).wf(),
        final(state)@ == (ChatView { users: posted(old(state)@.users, who@, now), ..old(state)@ }),
{
    let bump = |user: &User| -> (changed: User)
        requires
            user.message_count != u64::MAX,
        ensures
            changed@ == (UserView {
                message_count: (user.message_count + 1) as u64,
                last_active: now,
                ..user@
            }),
        {
            let mut changed = user.clone();
            changed.message_count = changed.message_count + 1;
            changed.last_active = now;
            changed
        };
    let _ = state.change_user(who, bump);
}

} // verus!
