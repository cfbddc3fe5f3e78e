//! Who may read an encrypted message.
//!
//! Three things grant access: having written the message, being among those
//! it is shared with, and being a member of the encrypted channel it was
//! posted in. Nothing grants access to a message that has expired.

use crate::identity::Identity;
use crate::model::{holds_identity, option_view, Channel, ChannelView, EncryptedMessage, EncryptedMessageView};
use crate::state::{ChatState, ChatView};
use vstd::prelude::*;

verus! {

/// `who` wrote the message or is among those it is shared with.
pub open spec fn directly_authorized(m: EncryptedMessageView, who: Seq<u8>) -> bool {
    who == m.author || m.shared_with.contains(who)
}

/// `channel` is encrypted and `who` is one of its members.
pub open spec fn admits(channel: Option<ChannelView>, who: Seq<u8>) -> bool {
    channel is Some && channel->0.is_encrypted && channel->0.members.contains(who)
}

/// `who` is authorized for the message, `channel` being what is stored under
/// the id of the channel that the message was posted in.
pub open spec fn authorized_with(m: EncryptedMessageView, who: Seq<u8>, channel: Option<ChannelView>) -> bool {
    directly_authorized(m, who) || (m.channel_id is Some && admits(channel, who))
}

/// The message has expired at time `now`.
pub open spec fn expired(m: EncryptedMessageView, now: u64) -> bool {
    now > m.expires_at
}

/// What is stored under the id of the channel of the message.
pub open spec fn channel_of(s: ChatView, m: EncryptedMessageView) -> Option<ChannelView> {
    match m.channel_id {
        Some(c) => s.channels.get(c),
        None => None,
    }
}

/// `who` may read message `id` at time `now`: the message is there, has not
/// expired, and `who` is authorized for it.
pub open spec fn may_read(s: ChatView, id: u64, who: Seq<u8>, now: u64) -> bool {
    &&& s.encrypted_messages.contains_key(id)
    &&& !expired(s.encrypted_messages[id], now)
    &&& authorized_with(
        s.encrypted_messages[id],
        who,
        channel_of(s, s.encrypted_messages[id]),
    )
}

impl EncryptedMessage {
    /// Whether `user` wrote the message or is among those it is shared with.
    pub fn is_authorized(&self, user: &Identity) -> (r: bool)
        ensures
            r == directly_authorized(self@, user@),
    {
        user.same(&self.author) || holds_identity(&self.shared_with, user)
    }

    /// Whether `user` is authorized for the message, by itself or as a member
    /// of the encrypted channel that the message was posted in. `get_channel`
    /// looks a channel up by its id; it is asked at most once, and only
    /// where the answer decides.
    pub fn is_authorized_with_channels<F: FnOnce(u64) -> Option<Channel>>(
        &self,
        user: &Identity,
        get_channel: F,
    ) -> (r: bool)
        requires
            self.channel_id is Some ==> get_channel.requires((self.channel_id->0,)),
        ensures
            directly_authorized(self@, user@) ==> r,
            !directly_authorized(self@, user@) && self.channel_id is None ==> !r,
            !directly_authorized(self@, user@) && self.channel_id is Some ==> exists|
                found: Option<Channel>,
            |
                get_channel.ensures((self.channel_id->0,), found) && r == admits(
                    option_view(found),
                    user@,
                ),
    {
        if self.is_authorized(user) {
            return true;
        }
        match self.channel_id {
            Some(channel_id) => {
                let found = get_channel(channel_id);
                let r = match &found {
                    Some(channel) => channel.is_encrypted && holds_identity(&channel.members, user),
                    None => false,
                };
                assert(r == admits(option_view(found), user@));
                r
            },
            None => false,
        }
    }

    /// Whether `user` is authorized for the message, `channel` being what is
    /// stored under the id of the channel that the message was posted in.
    pub fn is_authorized_in(&self, user: &Identity, channel: Option<&Channel>) -> (r: bool)
        ensures
            r == authorized_with(self@, user@, option_view(channel)),
    {
        if self.is_authorized(user) {
            return true;
        }
        match (self.channel_id, channel) {
            (Some(_), Some(found)) => found.is_encrypted && holds_identity(&found.members, user),
            _ => false,
        }
    }

    /// Whether the message has expired at `current_time`: it is good up to
    /// and at the time of its expiry.
    pub fn is_expired(&self, current_time: u64) -> (r: bool)
        ensures
            r == expired(self@, current_time),
    {
        current_time > self.expires_at
    }
}

/// Whether `caller` may read message `message_id` at time `now`.
pub fn can_read(state: &ChatState, caller: &Identity, now: u64, message_id: u64) -> (r: bool)
    requires
        state.inv(),
    ensures
        r == may_read(state@, message_id, caller@, now),
{
    match state.sealed_message(message_id) {
        Some(message) => {
            let channel = match message.channel_id {
                Some(c) => state.channel(c),
                None => None,
            };
            !message.is_expired(now) && message.is_authorized_in(caller, channel)
        },
        None => false,
    }
}

} // verus!
