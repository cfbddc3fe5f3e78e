//! What holds of the operations, stated over their models and proved.

use crate::access::{authorized_with, expired};
use crate::channels::{
    create_channel_spec, create_encrypted_channel_spec, create_encrypted_channel_with_hash_spec, delete_channel_spec,
    force_delete_channel_as_spec, join_channel_spec,
    join_channel_with_hash_spec, supplied_hash,
};
use crate::encrypted::{
    cleanup_expired_messages_spec, create_encrypted_message_sealed_spec,
    delete_encrypted_message_spec, expired_among, lemma_expired_among, lemma_removed_valid,
    lemma_swept, lemma_walk_lists, lemma_without, removed, share_encrypted_message_spec, stripped,
    stripped_for_all, swept, swept_count, swept_one, without, MAX_CONTENT_CHARS,
};
use crate::reading::ids_of;
use crate::table::lemma_ascending_distinct;
use crate::messages::{may_post_to, send_message_spec, MessageRequestView, MAX_ATTACHMENT_BYTES, total_size};
use crate::model::{ChannelView, ChatError, EncryptedMessageView, UserView};
use crate::password::password_hash;
use crate::state::{
    encrypted_walk, general_channel_complete, names, valid, ChatView, EXPIRY_NS, GENERAL_CHANNEL,
};
use crate::text::{acceptable_text, kept_optional, trimmed};
use crate::users::{entered, register_user_spec, update_user_spec, with_member, MAX_USERNAME_CHARS};
use vstd::prelude::*;

verus! {

/// After a caller who was not registered has registered under an acceptable
/// name, the user that is stored for it, and that it gets when it asks for
/// itself, is the one handed back: with the name and the bio trimmed,
/// and the time of the call as the time of joining.
pub proof fn law_registration_is_read_back(
    s: ChatView,
    caller: Seq<u8>,
    now: u64,
    username: Seq<char>,
    bio: Option<Seq<char>>,
)
    requires
        acceptable_text(username, MAX_USERNAME_CHARS as nat),
        !s.users.contains_key(caller),
    ensures
        register_user_spec(s, caller, now, username, bio).1 is Ok,
        register_user_spec(s, caller, now, username, bio).0.users.get(caller) == Some(
            register_user_spec(s, caller, now, username, bio).1->Ok_0,
        ),
        register_user_spec(s, caller, now, username, bio).1->Ok_0 == (UserView {
            user_principal: caller,
            username: trimmed(username),
            avatar_url: None,
            bio: kept_optional(bio),
            joined_at: now,
            message_count: 0,
            last_active: now,
            encrypted_keys: Map::empty(),
        }),
{
}

/// Whoever has registered cannot register again: a second registration
/// under an acceptable name is refused, and changes nothing.
pub proof fn law_second_registration_is_refused(
    s: ChatView,
    caller: Seq<u8>,
    now: u64,
    username: Seq<char>,
    bio: Option<Seq<char>>,
    later: u64,
    other_name: Seq<char>,
    other_bio: Option<Seq<char>>,
)
    requires
        register_user_spec(s, caller, now, username, bio).1 is Ok,
        acceptable_text(other_name, MAX_USERNAME_CHARS as nat),
    ensures
        register_user_spec(
            register_user_spec(s, caller, now, username, bio).0,
            caller,
            later,
            other_name,
            other_bio,
        ) == (register_user_spec(s, caller, now, username, bio).0, Err::<UserView, ChatError>(
            ChatError::UserAlreadyExists,
        )),
{
}

/// Content of more than 2000 characters is refused as invalid, whoever posts
/// it. Content of at most 2000 characters that is not blank is accepted from a
/// registered caller who posts to no channel, or to one it is a member of,
/// with attachments of at most ten million bytes.
pub proof fn law_content_limit(s: ChatView, caller: Seq<u8>, now: u64, request: MessageRequestView)
    ensures
        request.content.len() > MAX_CONTENT_CHARS ==> send_message_spec(
            s,
            caller,
            now,
            request,
        ) == (s, Err::<crate::model::MessageView, ChatError>(ChatError::InvalidInput)),
        acceptable_text(request.content, MAX_CONTENT_CHARS as nat) && total_size(
            request.attachments,
        ) <= MAX_ATTACHMENT_BYTES && s.users.contains_key(caller) && may_post_to(
            s,
            caller,
            request.channel_id,
        ) ==> send_message_spec(s, caller, now, request).1 is Ok,
{
}

/// An encrypted message that expires a day after it was written is good up
/// to and at that time, and expired at every later time.
pub proof fn law_expiry_boundary(m: EncryptedMessageView, now: u64)
    requires
        m.expires_at == m.timestamp + EXPIRY_NS,
    ensures
        expired(m, now) <==> now > m.timestamp + EXPIRY_NS,
        !expired(m, m.expires_at),
        m.expires_at < u64::MAX ==> expired(m, (m.expires_at + 1) as u64),
{
}

/// Every encrypted message of a valid state expires a day after it was
/// written.
pub proof fn law_messages_expire_after_a_day(s: ChatView, id: u64)
    requires
        valid(s),
        s.encrypted_messages.contains_key(id),
    ensures
        s.encrypted_messages[id].expires_at == s.encrypted_messages[id].timestamp + EXPIRY_NS,
{
}

/// The author of a message is authorized for it, whatever the channel.
pub proof fn law_author_is_authorized(m: EncryptedMessageView, channel: Option<ChannelView>)
    ensures
        authorized_with(m, m.author, channel),
{
}

/// Whoever did not write a message, is not among those it is shared with,
/// and is no member of the channel it was posted in, is not authorized.
pub proof fn law_stranger_is_not_authorized(
    m: EncryptedMessageView,
    who: Seq<u8>,
    channel: Option<ChannelView>,
)
    requires
        who != m.author,
        !m.shared_with.contains(who),
        channel is Some ==> !channel->0.members.contains(who),
    ensures
        !authorized_with(m, who, channel),
{
}

/// A member of the encrypted channel that a message was posted in is
/// authorized for it, shared or not.
pub proof fn law_member_of_encrypted_channel_is_authorized(
    m: EncryptedMessageView,
    who: Seq<u8>,
    channel: ChannelView,
)
    requires
        m.channel_id is Some,
        channel.is_encrypted,
        channel.members.contains(who),
    ensures
        authorized_with(m, who, Some(channel)),
{
}

/// Membership of a channel that is not encrypted authorizes nobody: a
/// member who did not write the message and with whom it is not shared is
/// not authorized.
pub proof fn law_member_of_open_channel_is_not_authorized(
    m: EncryptedMessageView,
    who: Seq<u8>,
    channel: ChannelView,
)
    requires
        who != m.author,
        !m.shared_with.contains(who),
        !channel.is_encrypted,
    ensures
        !authorized_with(m, who, Some(channel)),
{
}

/// A registered caller who gives the password of a protected channel is let
/// in, and is a member afterwards. Joining again changes nothing: nobody
/// becomes a member twice through joining.
pub proof fn law_join_with_password(s: ChatView, caller: Seq<u8>, channel_id: u64, password: Seq<char>)
    requires
        s.users.contains_key(caller),
        s.channels.contains_key(channel_id),
        s.channels[channel_id].password_hash == Some(password_hash(password)),
    ensures
        join_channel_spec(s, caller, channel_id, Some(password)).1 == Ok::<(), ChatError>(()),
        join_channel_spec(s, caller, channel_id, Some(password)).0.channels[channel_id]
            == with_member(s.channels[channel_id], caller),
        join_channel_spec(s, caller, channel_id, Some(password)).0.channels[channel_id].members.contains(
            caller,
        ),
        join_channel_spec(
            join_channel_spec(s, caller, channel_id, Some(password)).0,
            caller,
            channel_id,
            Some(password),
        ) == (join_channel_spec(s, caller, channel_id, Some(password)).0, Ok::<(), ChatError>(())),
{
    let after = join_channel_spec(s, caller, channel_id, Some(password)).0;
    let joined = with_member(s.channels[channel_id], caller);
    assert(after.channels[channel_id] == joined);
    assert(joined.members.contains(caller)) by {
        if !s.channels[channel_id].members.contains(caller) {
            assert(joined.members[joined.members.len() - 1] == caller);
        }
    }
    assert(with_member(joined, caller) == joined);
    assert(entered(after.channels, channel_id, caller) =~= after.channels);
}

/// The password that a channel was created with lets in: whoever is
/// registered and gives the very text that the creator gave becomes a
/// member.
pub proof fn law_created_password_lets_in(
    s: ChatView,
    creator: Seq<u8>,
    now: u64,
    name: Seq<char>,
    description: Option<Seq<char>>,
    password: Seq<char>,
    caller: Seq<u8>,
)
    requires
        create_encrypted_channel_spec(s, creator, now, name, description, Some(password)).1 is Ok,
        s.users.contains_key(caller),
    ensures
        join_channel_spec(
            create_encrypted_channel_spec(s, creator, now, name, description, Some(password)).0,
            caller,
            s.next_channel_id,
            Some(password),
        ).1 == Ok::<(), ChatError>(()),
        join_channel_spec(
            create_encrypted_channel_spec(s, creator, now, name, description, Some(password)).0,
            caller,
            s.next_channel_id,
            Some(password),
        ).0.channels[s.next_channel_id].members.contains(caller),
{
    let created = create_encrypted_channel_spec(s, creator, now, name, description, Some(password)).0;
    let channel = created.channels[s.next_channel_id];
    let joined = with_member(channel, caller);
    assert(joined.members.contains(caller)) by {
        if !channel.members.contains(caller) {
            assert(joined.members[joined.members.len() - 1] == caller);
        }
    }
}

/// A registered caller who gives no password for a protected channel, or
/// one whose hash is not the one kept, is refused, and nothing changes.
pub proof fn law_join_without_password(
    s: ChatView,
    caller: Seq<u8>,
    channel_id: u64,
    password: Option<Seq<char>>,
)
    requires
        s.users.contains_key(caller),
        s.channels.contains_key(channel_id),
        s.channels[channel_id].password_hash is Some,
        supplied_hash(password) != s.channels[channel_id].password_hash,
    ensures
        join_channel_spec(s, caller, channel_id, password) == (s, Err::<(), ChatError>(
            ChatError::InvalidPassword,
        )),
{
}

/// The channel that every user is in is never removed by deletion, whoever
/// asks: the request is refused and nothing changes.
pub proof fn law_general_channel_is_never_deleted(
    s: ChatView,
    caller: Seq<u8>,
    administrator: Option<Seq<u8>>,
)
    ensures
        delete_channel_spec(s, caller, GENERAL_CHANNEL).0 == s,
        delete_channel_spec(s, caller, GENERAL_CHANNEL).1 is Err,
        force_delete_channel_as_spec(s, caller, administrator, GENERAL_CHANNEL) == (s, Err::<
            (),
            ChatError,
        >(ChatError::NotAuthorized)),
{
}

/// Registration keeps the channel that every user is in complete: the new
/// user is let in.
pub proof fn law_registration_keeps_general_channel(
    s: ChatView,
    caller: Seq<u8>,
    now: u64,
    username: Seq<char>,
    bio: Option<Seq<char>>,
)
    requires
        general_channel_complete(s),
    ensures
        general_channel_complete(register_user_spec(s, caller, now, username, bio).0),
{
    let after = register_user_spec(s, caller, now, username, bio).0;
    if after != s {
        let before = s.channels[GENERAL_CHANNEL].members;
        let joined = with_member(s.channels[GENERAL_CHANNEL], caller).members;
        assert(after.channels[GENERAL_CHANNEL].members == joined);
        assert forall|k: Seq<u8>| before.contains(k) implies joined.contains(k) by {
            let i = before.index_of(k);
            assert(joined[i] == k);
        }
        if !before.contains(caller) {
            assert(joined[joined.len() - 1] == caller);
        }
    }
}

/// A profile update leaves the channel that every user is in complete.
pub proof fn law_profile_update_keeps_general_channel(
    s: ChatView,
    caller: Seq<u8>,
    now: u64,
    username: Option<Seq<char>>,
    bio: Option<Seq<char>>,
    avatar_url: Option<Seq<char>>,
)
    requires
        general_channel_complete(s),
    ensures
        general_channel_complete(update_user_spec(s, caller, now, username, bio, avatar_url).0),
{
}

/// Neither the creation of a channel in a valid state, nor joining, nor
/// deletion breaks the completeness of the channel that every user is in.
pub proof fn law_channels_keep_general_channel(
    s: ChatView,
    caller: Seq<u8>,
    now: u64,
    channel_id: u64,
    name: Seq<char>,
    description: Option<Seq<char>>,
    hash: Option<Seq<char>>,
    administrator: Option<Seq<u8>>,
)
    requires
        general_channel_complete(s),
        valid(s),
    ensures
        general_channel_complete(create_channel_spec(s, caller, now, name, description).0),
        general_channel_complete(
            create_encrypted_channel_with_hash_spec(s, caller, now, name, description, hash).0,
        ),
        general_channel_complete(join_channel_with_hash_spec(s, caller, channel_id, hash).0),
        general_channel_complete(delete_channel_spec(s, caller, channel_id).0),
        general_channel_complete(
            force_delete_channel_as_spec(s, caller, administrator, channel_id).0,
        ),
{
    let joined = join_channel_with_hash_spec(s, caller, channel_id, hash).0;
    if joined != s && channel_id == GENERAL_CHANNEL {
        let before = s.channels[GENERAL_CHANNEL].members;
        let after = with_member(s.channels[GENERAL_CHANNEL], caller).members;
        assert(joined.channels[GENERAL_CHANNEL].members == after);
        assert forall|k: Seq<u8>| before.contains(k) implies after.contains(k) by {
            let i = before.index_of(k);
            assert(after[i] == k);
        }
    }
}

/// Posting keeps the channel that every user is in complete.
pub proof fn law_posting_keeps_general_channel(
    s: ChatView,
    caller: Seq<u8>,
    now: u64,
    request: MessageRequestView,
    plain: Seq<char>,
    content: Seq<char>,
)
    requires
        general_channel_complete(s),
    ensures
        general_channel_complete(send_message_spec(s, caller, now, request).0),
        general_channel_complete(
            create_encrypted_message_sealed_spec(
                s,
                caller,
                now,
                plain,
                content,
                request.channel_id,
                request.reply_to,
                request.message_type,
                request.attachments,
            ).0,
        ),
{
}

/// Sharing, deleting and sweeping encrypted messages leave users and
/// channels as they are.
pub proof fn law_encrypted_messages_leave_channels(
    s: ChatView,
    caller: Seq<u8>,
    id: u64,
    user: Seq<u8>,
    now: u64,
)
    ensures
        share_encrypted_message_spec(s, caller, id, user).0.users == s.users,
        share_encrypted_message_spec(s, caller, id, user).0.channels == s.channels,
        delete_encrypted_message_spec(s, caller, id).0.users == s.users,
        delete_encrypted_message_spec(s, caller, id).0.channels == s.channels,
        cleanup_expired_messages_spec(s, now).0.users == s.users,
        cleanup_expired_messages_spec(s, now).0.channels == s.channels,
{
    lemma_swept(s, expired_among(s, encrypted_walk(s), now));
}

/// A sweep removes exactly the encrypted messages that have expired and
/// leaves nothing of them behind: the messages that stay are those that had
/// not expired, unchanged; the state stays valid, so the owner index and the
/// share index name only messages that stay.
pub proof fn law_sweep_removes_expired(s: ChatView, now: u64)
    requires
        valid(s),
    ensures
        valid(cleanup_expired_messages_spec(s, now).0),
        forall|id: u64| #[trigger]
            cleanup_expired_messages_spec(s, now).0.encrypted_messages.contains_key(id)
                <==> s.encrypted_messages.contains_key(id) && !expired(
                s.encrypted_messages[id],
                now,
            ),
        forall|id: u64| #[trigger]
            cleanup_expired_messages_spec(s, now).0.encrypted_messages.contains_key(id)
                ==> cleanup_expired_messages_spec(s, now).0.encrypted_messages[id]
                == s.encrypted_messages[id],
        forall|who: Seq<u8>, id: u64| #[trigger]
            names(cleanup_expired_messages_spec(s, now).0.owners, who, id)
                ==> s.encrypted_messages.contains_key(id) && !expired(
                s.encrypted_messages[id],
                now,
            ),
        forall|who: Seq<u8>, id: u64| #[trigger]
            names(cleanup_expired_messages_spec(s, now).0.shares, who, id)
                ==> s.encrypted_messages.contains_key(id) && !expired(
                s.encrypted_messages[id],
                now,
            ),
{
    let walk = encrypted_walk(s);
    let ids = expired_among(s, walk, now);
    let after = swept(s, ids);
    lemma_walk_lists(s);
    lemma_expired_among(s, walk, now);
    lemma_swept(s, ids);
    assert forall|id: u64| #[trigger]
        after.encrypted_messages.contains_key(id) <==> s.encrypted_messages.contains_key(id)
            && !expired(s.encrypted_messages[id], now) by {
        if s.encrypted_messages.contains_key(id) {
            assert(walk.contains(id));
        }
    }
    assert forall|who: Seq<u8>, id: u64| #[trigger] names(after.owners, who, id) implies s.encrypted_messages.contains_key(
        id,
    ) && !expired(s.encrypted_messages[id], now) by {
        assert(after.encrypted_messages.contains_key(id));
    }
    assert forall|who: Seq<u8>, id: u64| #[trigger] names(after.shares, who, id) implies s.encrypted_messages.contains_key(
        id,
    ) && !expired(s.encrypted_messages[id], now) by {
        assert(after.encrypted_messages.contains_key(id));
    }
}

/// A second sweep at the same time finds nothing to remove.
pub proof fn law_second_sweep_finds_nothing(s: ChatView, now: u64)
    requires
        valid(s),
    ensures
        cleanup_expired_messages_spec(cleanup_expired_messages_spec(s, now).0, now) == (
            cleanup_expired_messages_spec(s, now).0,
            0nat,
        ),
{
    let after = cleanup_expired_messages_spec(s, now).0;
    law_sweep_removes_expired(s, now);
    let ids = expired_among(after, encrypted_walk(after), now);
    lemma_expired_among(after, encrypted_walk(after), now);
    lemma_swept(after, ids);
    assert forall|x: u64| ids.contains(x) implies false by {
        assert(after.encrypted_messages.contains_key(x));
        assert(expired(after.encrypted_messages[x], now));
    }
    if ids.len() > 0 {
        assert(ids.contains(ids[0]));
    }
}

/// The counters from which ids are taken never go back, whatever is done:
/// no id is given out twice.
pub proof fn law_counters_never_go_back(
    s: ChatView,
    caller: Seq<u8>,
    now: u64,
    id: u64,
    text: Seq<char>,
    optional: Option<Seq<char>>,
    other: Seq<u8>,
    request: MessageRequestView,
)
    requires
        s.next_message_id < u64::MAX,
        s.next_channel_id < u64::MAX,
    ensures
        keeps_counters(s, register_user_spec(s, caller, now, text, optional).0),
        keeps_counters(s, update_user_spec(s, caller, now, Some(text), optional, optional).0),
        keeps_counters(s, join_channel_with_hash_spec(s, caller, id, optional).0),
        keeps_counters(s, delete_channel_spec(s, caller, id).0),
        keeps_counters(s, force_delete_channel_as_spec(s, caller, Some(other), id).0),
        keeps_counters(s, share_encrypted_message_spec(s, caller, id, other).0),
        keeps_counters(s, delete_encrypted_message_spec(s, caller, id).0),
        keeps_counters(s, cleanup_expired_messages_spec(s, now).0),
        raises_counters(s, create_channel_spec(s, caller, now, text, optional).0),
        raises_counters(
            s,
            create_encrypted_channel_with_hash_spec(s, caller, now, text, optional, optional).0,
        ),
        raises_counters(s, send_message_spec(s, caller, now, request).0),
        raises_counters(
            s,
            create_encrypted_message_sealed_spec(
                s,
                caller,
                now,
                request.content,
                text,
                request.channel_id,
                request.reply_to,
                request.message_type,
                request.attachments,
            ).0,
        ),
{
    lemma_swept(s, expired_among(s, encrypted_walk(s), now));
}

/// Both counters are as they were.
pub open spec fn keeps_counters(before: ChatView, after: ChatView) -> bool {
    after.next_message_id == before.next_message_id && after.next_channel_id
        == before.next_channel_id
}

/// Neither counter is lower than it was.
pub open spec fn raises_counters(before: ChatView, after: ChatView) -> bool {
    after.next_message_id >= before.next_message_id && after.next_channel_id
        >= before.next_channel_id
}

/// `list` without every id that is in `gone`, the rest in its order.
pub open spec fn ids_left(list: Seq<u64>, gone: Seq<u64>) -> Seq<u64>
    decreases list.len(),
{
    if list.len() == 0 {
        list
    } else if gone.contains(list.last()) {
        ids_left(list.drop_last(), gone)
    } else {
        ids_left(list.drop_last(), gone).push(list.last())
    }
}

/// `list` after each of `ids` is taken out of it in turn.
spec fn without_all(list: Seq<u64>, ids: Seq<u64>) -> Seq<u64>
    decreases ids.len(),
{
    if ids.len() == 0 {
        list
    } else {
        without_all(without(list, ids.first()), ids.drop_first())
    }
}

proof fn lemma_stripped_list(index: Map<Seq<u8>, Seq<u64>>, who: Seq<u8>, id: u64, w: Seq<u8>)
    ensures
        ids_of(stripped(index, who, id), w) == if w == who {
            without(ids_of(index, w), id)
        } else {
            ids_of(index, w)
        },
{
    if w == who && index.contains_key(who) {
        let kept = without(index[who], id);
        if kept.len() == 0 {
            assert(kept =~= Seq::<u64>::empty());
        }
    }
}

proof fn lemma_stripped_for_all_list(
    index: Map<Seq<u8>, Seq<u64>>,
    whom: Seq<Seq<u8>>,
    id: u64,
    w: Seq<u8>,
)
    ensures
        ids_of(stripped_for_all(index, whom, id), w) == if whom.contains(w) {
            without(ids_of(index, w), id)
        } else {
            ids_of(index, w)
        },
    decreases whom.len(),
{
    if whom.len() > 0 {
        let first = whom.first();
        let rest = whom.drop_first();
        let step = stripped(index, first, id);
        lemma_stripped_list(index, first, id, w);
        lemma_stripped_for_all_list(step, rest, id, w);
        assert(whom[0] == first);
        assert(whom.contains(w) <==> w == first || rest.contains(w)) by {
            if rest.contains(w) {
                let i = rest.index_of(w);
                assert(whom[i + 1] == w);
            }
            if whom.contains(w) && w != first {
                let i = whom.index_of(w);
                assert(rest[i - 1] == w);
            }
        }
        let once = without(ids_of(index, w), id);
        lemma_without(ids_of(index, w), id);
        lemma_without(once, id);
    }
}

proof fn lemma_removed_lists(s: ChatView, id: u64, w: Seq<u8>)
    requires
        valid(s),
        s.encrypted_messages.contains_key(id),
    ensures
        ids_of(removed(s, id).owners, w) == without(ids_of(s.owners, w), id),
        ids_of(removed(s, id).shares, w) == without(ids_of(s.shares, w), id),
{
    let m = s.encrypted_messages[id];
    lemma_stripped_list(s.owners, m.author, id, w);
    lemma_stripped_for_all_list(s.shares, m.shared_with, id, w);
    lemma_without(ids_of(s.owners, w), id);
    lemma_without(ids_of(s.shares, w), id);
    if w != m.author && ids_of(s.owners, w).contains(id) {
        assert(names(s.owners, w, id));
    }
    if !m.shared_with.contains(w) && ids_of(s.shares, w).contains(id) {
        assert(names(s.shares, w, id));
    }
}

proof fn lemma_swept_lists(s: ChatView, ids: Seq<u64>, w: Seq<u8>)
    requires
        valid(s),
    ensures
        ids_of(swept(s, ids).owners, w) == without_all(ids_of(s.owners, w), ids),
        ids_of(swept(s, ids).shares, w) == without_all(ids_of(s.shares, w), ids),
    decreases ids.len(),
{
    if ids.len() > 0 {
        let first = ids.first();
        let step = swept_one(s, first);
        if s.encrypted_messages.contains_key(first) {
            lemma_removed_valid(s, first);
            lemma_removed_lists(s, first, w);
        } else {
            lemma_without(ids_of(s.owners, w), first);
            lemma_without(ids_of(s.shares, w), first);
            if ids_of(s.owners, w).contains(first) {
                assert(names(s.owners, w, first));
            }
            if ids_of(s.shares, w).contains(first) {
                assert(names(s.shares, w, first));
            }
        }
        lemma_swept_lists(step, ids.drop_first(), w);
    }
}

proof fn lemma_left_of_nothing(list: Seq<u64>)
    ensures
        ids_left(list, Seq::<u64>::empty()) == list,
    decreases list.len(),
{
    if list.len() > 0 {
        lemma_left_of_nothing(list.drop_last());
        assert(list.drop_last().push(list.last()) =~= list);
    }
}

proof fn lemma_left_step(list: Seq<u64>, ids: Seq<u64>)
    requires
        ids.len() > 0,
    ensures
        ids_left(without(list, ids.first()), ids.drop_first()) == ids_left(list, ids),
    decreases list.len(),
{
    let f = ids.first();
    let rest = ids.drop_first();
    if list.len() > 0 {
        let front = list.drop_last();
        let x = list.last();
        lemma_left_step(front, ids);
        assert(ids[0] == f);
        assert(ids.contains(x) <==> x == f || rest.contains(x)) by {
            if rest.contains(x) {
                let i = rest.index_of(x);
                assert(ids[i + 1] == x);
            }
            if ids.contains(x) && x != f {
                let i = ids.index_of(x);
                assert(rest[i - 1] == x);
            }
        }
        if x != f {
            let shorter = without(front, f);
            assert(without(list, f) == shorter.push(x));
            assert(shorter.push(x).drop_last() =~= shorter);
            assert(shorter.push(x).last() == x);
        }
    }
}

proof fn lemma_without_all_is_left(list: Seq<u64>, ids: Seq<u64>)
    ensures
        without_all(list, ids) == ids_left(list, ids),
    decreases ids.len(),
{
    if ids.len() == 0 {
        assert(ids =~= Seq::<u64>::empty());
        lemma_left_of_nothing(list);
    } else {
        lemma_without_all_is_left(without(list, ids.first()), ids.drop_first());
        lemma_left_step(list, ids);
    }
}

proof fn lemma_expired_among_distinct(s: ChatView, ids: Seq<u64>, now: u64)
    requires
        ids.no_duplicates(),
    ensures
        expired_among(s, ids, now).no_duplicates(),
    decreases ids.len(),
{
    if ids.len() > 0 {
        let front = ids.drop_last();
        let last = ids.last();
        lemma_expired_among_distinct(s, front, now);
        lemma_expired_among(s, front, now);
        let sofar = expired_among(s, front, now);
        if sofar.contains(last) {
            assert(front.contains(last));
            let i = front.index_of(last);
            assert(ids[i] == ids[ids.len() - 1]);
        }
        assert(sofar.push(last).no_duplicates());
    }
}

proof fn lemma_swept_count(s: ChatView, ids: Seq<u64>)
    requires
        ids.no_duplicates(),
        forall|i: int| 0 <= i < ids.len() ==> s.encrypted_messages.contains_key(#[trigger] ids[i]),
    ensures
        swept_count(s, ids) == ids.len(),
    decreases ids.len(),
{
    if ids.len() > 0 {
        let first = ids.first();
        let rest = ids.drop_first();
        let step = swept_one(s, first);
        assert(s.encrypted_messages.contains_key(ids[0]));
        assert forall|i: int| 0 <= i < rest.len() implies step.encrypted_messages.contains_key(
            #[trigger] rest[i],
        ) by {
            assert(rest[i] == ids[i + 1]);
            assert(ids[i + 1] != ids[0]);
        }
        lemma_swept_count(step, rest);
    }
}

/// What a sweep of a valid state counts and leaves in the indices: the count
/// is the number of messages that had expired, and the list of every
/// identity, in the owner index and in the share index, is what it was
/// without the ids of those messages, the rest in its order. An identity
/// whose list has nothing left is in the index no more.
pub proof fn law_sweep_counts_and_keeps_order(s: ChatView, now: u64, who: Seq<u8>)
    requires
        valid(s),
    ensures
        cleanup_expired_messages_spec(s, now).1 == expired_among(s, encrypted_walk(s), now).len(),
        ids_of(cleanup_expired_messages_spec(s, now).0.owners, who) == ids_left(
            ids_of(s.owners, who),
            expired_among(s, encrypted_walk(s), now),
        ),
        ids_of(cleanup_expired_messages_spec(s, now).0.shares, who) == ids_left(
            ids_of(s.shares, who),
            expired_among(s, encrypted_walk(s), now),
        ),
        cleanup_expired_messages_spec(s, now).0.owners.contains_key(who) <==> ids_left(
            ids_of(s.owners, who),
            expired_among(s, encrypted_walk(s), now),
        ).len() > 0,
        cleanup_expired_messages_spec(s, now).0.shares.contains_key(who) <==> ids_left(
            ids_of(s.shares, who),
            expired_among(s, encrypted_walk(s), now),
        ).len() > 0,
{
    let walk = encrypted_walk(s);
    let gone = expired_among(s, walk, now);
    lemma_walk_lists(s);
    lemma_ascending_distinct::<u64>(walk);
    lemma_expired_among(s, walk, now);
    lemma_expired_among_distinct(s, walk, now);
    assert forall|i: int| 0 <= i < gone.len() implies s.encrypted_messages.contains_key(
        #[trigger] gone[i],
    ) by {
        assert(gone.contains(gone[i]));
    }
    lemma_swept_count(s, gone);
    lemma_swept_lists(s, gone, who);
    lemma_without_all_is_left(ids_of(s.owners, who), gone);
    lemma_without_all_is_left(ids_of(s.shares, who), gone);
    lemma_swept(s, gone);
}

} // verus!
