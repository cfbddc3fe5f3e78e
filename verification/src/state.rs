//! The application state: one ordered table for each kind of entity, two
//! index tables from identities to the ids of encrypted messages, and two
//! counters from which ids are taken.
//!
//! The state is built once, by [`ChatState::new`], and handed to every
//! operation. Its mathematical value is a [`ChatView`]: a record of maps. The
//! functions of this file are the repositories: each reads or writes one
//! table and says what that does to the view.

use crate::identity::{anonymous, Identity};
use crate::model::{
    Channel, ChannelView, EncryptedMessage, EncryptedMessageView, Message, MessageIds,
    MessageView, User, UserView,
};
use crate::table::{listing, Table};
use vstd::prelude::*;
use vstd::string::StringExecFns;

verus! {

/// The time, in nanoseconds, after which an encrypted message expires.
pub const EXPIRY_NS: u64 = 86_400_000_000_000;

/// The id of the channel that every user is in.
pub const GENERAL_CHANNEL: u64 = 1;

/// The most identities that one encrypted message can be shared with.
pub const MAX_SHARES: usize = 50;

/// The mathematical value of the application state.
#[verifier::ext_equal]
pub struct ChatView {
    pub users: Map<Seq<u8>, UserView>,
    pub channels: Map<u64, ChannelView>,
    pub messages: Map<u64, MessageView>,
    pub encrypted_messages: Map<u64, EncryptedMessageView>,
    /// For each identity, the ids of the encrypted messages it wrote.
    pub owners: Map<Seq<u8>, Seq<u64>>,
    /// For each identity, the ids of the encrypted messages shared with it.
    pub shares: Map<Seq<u8>, Seq<u64>>,
    pub next_message_id: u64,
    pub next_channel_id: u64,
    pub key_name: Seq<char>,
}

/// The application state.
pub struct ChatState {
    users: Table<Identity, User>,
    channels: Table<u64, Channel>,
    messages: Table<u64, Message>,
    encrypted_messages: Table<u64, EncryptedMessage>,
    encrypted_message_owners: Table<Identity, MessageIds>,
    encrypted_message_shares: Table<Identity, MessageIds>,
    next_message_id: u64,
    next_channel_id: u64,
    key_name: String,
}

impl View for ChatState {
    type V = ChatView;

    closed spec fn view(&self) -> ChatView {
        ChatView {
            users: self.users@,
            channels: self.channels@,
            messages: self.messages@,
            encrypted_messages: self.encrypted_messages@,
            owners: self.encrypted_message_owners@,
            shares: self.encrypted_message_shares@,
            next_message_id: self.next_message_id,
            next_channel_id: self.next_channel_id,
            key_name: self.key_name@,
        }
    }
}

/// Every user is stored under its own identity and has posted fewer messages
/// than ids were given out.
pub open spec fn users_valid(s: ChatView) -> bool {
    forall|k: Seq<u8>| #[trigger]
        s.users.contains_key(k) ==> s.users[k].user_principal == k && s.users[k].message_count
            < s.next_message_id
}

/// Every channel is stored under its own id, which was given out, holds
/// fewer messages than ids were given out, and has nobody as a member twice.
pub open spec fn channels_valid(s: ChatView) -> bool {
    forall|id: u64| #[trigger]
        s.channels.contains_key(id) ==> s.channels[id].id == id && (id == GENERAL_CHANNEL || id
            < s.next_channel_id) && s.channels[id].message_count < s.next_message_id
            && s.channels[id].members.no_duplicates()
}

/// Every message is stored under its own id, which was given out.
pub open spec fn messages_valid(s: ChatView) -> bool {
    forall|id: u64| #[trigger]
        s.messages.contains_key(id) ==> s.messages[id].id == id && id < s.next_message_id
}

/// Every encrypted message is stored under its own id, which was given out,
/// expires a day after it was written, and is shared with at most fifty
/// identities, none of them twice and none of them its author.
pub open spec fn encrypted_valid(s: ChatView) -> bool {
    forall|id: u64| #[trigger]
        s.encrypted_messages.contains_key(id) ==> {
            let m = s.encrypted_messages[id];
            &&& m.id == id
            &&& id < s.next_message_id
            &&& m.expires_at == m.timestamp + EXPIRY_NS
            &&& m.shared_with.len() <= MAX_SHARES
            &&& m.shared_with.no_duplicates()
            &&& !m.shared_with.contains(m.author)
        }
}

/// The list of `who` in `index` names `id`.
pub open spec fn names(index: Map<Seq<u8>, Seq<u64>>, who: Seq<u8>, id: u64) -> bool {
    index.contains_key(who) && index[who].contains(id)
}

/// The owner index lists, for each identity, exactly the encrypted messages
/// that it wrote: no list is empty, no id is listed twice, and no id is
/// listed that has no message.
pub open spec fn owners_valid(s: ChatView) -> bool {
    &&& forall|who: Seq<u8>| #[trigger]
        s.owners.contains_key(who) ==> s.owners[who].len() > 0 && s.owners[who].no_duplicates()
    &&& forall|who: Seq<u8>, id: u64| #[trigger]
        names(s.owners, who, id) ==> s.encrypted_messages.contains_key(id)
            && s.encrypted_messages[id].author == who
    &&& forall|id: u64| #[trigger]
        s.encrypted_messages.contains_key(id) ==> names(
            s.owners,
            s.encrypted_messages[id].author,
            id,
        )
}

/// The share index lists, for each identity, exactly the encrypted messages
/// that are shared with it: no list is empty, no id is listed twice, and no
/// id is listed that has no message.
pub open spec fn shares_valid(s: ChatView) -> bool {
    &&& forall|who: Seq<u8>| #[trigger]
        s.shares.contains_key(who) ==> s.shares[who].len() > 0 && s.shares[who].no_duplicates()
    &&& forall|who: Seq<u8>, id: u64| #[trigger]
        names(s.shares, who, id) ==> s.encrypted_messages.contains_key(id)
            && s.encrypted_messages[id].shared_with.contains(who)
    &&& forall|who: Seq<u8>, id: u64|
        s.encrypted_messages.contains_key(id)
            && #[trigger] s.encrypted_messages[id].shared_with.contains(who) ==> names(
            s.shares,
            who,
            id,
        )
}

/// What holds of every state that the operations can reach.
pub open spec fn valid(s: ChatView) -> bool {
    &&& users_valid(s)
    &&& channels_valid(s)
    &&& messages_valid(s)
    &&& encrypted_valid(s)
    &&& owners_valid(s)
    &&& shares_valid(s)
    &&& s.next_message_id >= 1
    &&& s.next_channel_id >= 2
    &&& s.users.dom().finite()
    &&& s.channels.dom().finite()
    &&& s.messages.dom().finite()
    &&& s.encrypted_messages.dom().finite()
}

/// The channel that every user is in exists and holds the anonymous identity
/// and every registered user.
pub open spec fn general_channel_complete(s: ChatView) -> bool {
    &&& s.channels.contains_key(GENERAL_CHANNEL)
    &&& s.channels[GENERAL_CHANNEL].members.contains(anonymous())
    &&& forall|k: Seq<u8>| #[trigger]
        s.users.contains_key(k) ==> s.channels[GENERAL_CHANNEL].members.contains(k)
}

/// The state right after [`ChatState::new`].
pub open spec fn initial(key_name: Seq<char>, now: u64) -> ChatView {
    ChatView {
        users: Map::empty(),
        channels: Map::empty().insert(
            GENERAL_CHANNEL,
            ChannelView {
                id: GENERAL_CHANNEL,
                name: "General"@,
                description: Some("Welcome to Chat Z! This is the main chat channel."@),
                created_by: anonymous(),
                created_at: now,
                members: seq![anonymous()],
                message_count: 0,
                last_message_at: None,
                is_encrypted: false,
                password_hash: None,
            },
        ),
        messages: Map::empty(),
        encrypted_messages: Map::empty(),
        owners: Map::empty(),
        shares: Map::empty(),
        next_message_id: 1,
        next_channel_id: 2,
        key_name: key_name,
    }
}

/// The name of the key that is used where none is given.
pub open spec fn default_key_name() -> Seq<char> {
    "chat_z_symmetric_key"@
}

impl ChatState {
    /// The tables are in order.
    pub closed spec fn wf(&self) -> bool {
        &&& self.users.wf()
        &&& self.channels.wf()
        &&& self.messages.wf()
        &&& self.encrypted_messages.wf()
        &&& self.encrypted_message_owners.wf()
        &&& self.encrypted_message_shares.wf()
    }

    /// The invariant of the state: every operation asks for it and keeps it.
    pub open spec fn inv(&self) -> bool {
        self.wf() && valid(self@)
    }

    /// A state without entries, with the counters and the key name given.
    pub(crate) fn empty(next_message_id: u64, next_channel_id: u64, key_name: String) -> (r:
        ChatState)
        ensures
            r.wf(),
            r@ == (ChatView {
                users: Map::empty(),
                channels: Map::empty(),
                messages: Map::empty(),
                encrypted_messages: Map::empty(),
                owners: Map::empty(),
                shares: Map::empty(),
                next_message_id: next_message_id,
                next_channel_id: next_channel_id,
                key_name: key_name@,
            }),
    {
        ChatState {
            users: Table::new(),
            channels: Table::new(),
            messages: Table::new(),
            encrypted_messages: Table::new(),
            encrypted_message_owners: Table::new(),
            encrypted_message_shares: Table::new(),
            next_message_id,
            next_channel_id,
            key_name,
        }
    }

    /// The state at genesis: no users, no messages, and the channel that
    /// every user is in, with the anonymous identity as its creator and only
    /// member. The first id given to a message is 1, the first given to a
    /// channel is 2.
    pub fn new(key_name: Option<String>, now: u64) -> (r: ChatState)
        ensures
            r.inv(),
            general_channel_complete(r@),
            r@ == initial(
                match key_name {
                    Some(name) => name@,
                    None => default_key_name(),
                },
                now,
            ),
    {
        let name = match key_name {
            Some(name) => name,
            None => String::from_str("chat_z_symmetric_key"),
        };
        let mut members: Vec<Identity> = Vec::new();
        members.push(Identity::anonymous());
        let general = Channel {
            id: GENERAL_CHANNEL,
            name: String::from_str("General"),
            description: Some(String::from_str("Welcome to Chat Z! This is the main chat channel.")),
            created_by: Identity::anonymous(),
            created_at: now,
            members,
            message_count: 0,
            last_message_at: None,
            is_encrypted: false,
            password_hash: None,
        };
        assert(general@.members =~= seq![anonymous()]);
        let mut channels: Table<u64, Channel> = Table::new();
        channels.insert(GENERAL_CHANNEL, general);
        let r = ChatState {
            users: Table::new(),
            channels,
            messages: Table::new(),
            encrypted_messages: Table::new(),
            encrypted_message_owners: Table::new(),
            encrypted_message_shares: Table::new(),
            next_message_id: 1,
            next_channel_id: 2,
            key_name: name,
        };
        assert(r@.channels[GENERAL_CHANNEL].members[0] == anonymous());
        r
    }
}

/// The identities of the users in the order in which they are walked.
pub open spec fn user_walk(s: ChatView) -> Seq<Seq<u8>> {
    listing::<Identity>(s.users.dom())
}

/// The ids of the channels in ascending order.
pub open spec fn channel_walk(s: ChatView) -> Seq<u64> {
    listing::<u64>(s.channels.dom())
}

/// The ids of the messages in ascending order.
pub open spec fn message_walk(s: ChatView) -> Seq<u64> {
    listing::<u64>(s.messages.dom())
}

/// The ids of the encrypted messages in ascending order.
pub open spec fn encrypted_walk(s: ChatView) -> Seq<u64> {
    listing::<u64>(s.encrypted_messages.dom())
}

/// The identities of the owner index in the order in which they are walked.
pub open spec fn owner_walk(s: ChatView) -> Seq<Seq<u8>> {
    listing::<Identity>(s.owners.dom())
}

/// The identities of the share index in the order in which they are walked.
pub open spec fn share_walk(s: ChatView) -> Seq<Seq<u8>> {
    listing::<Identity>(s.shares.dom())
}

impl ChatState {
    /// The tables of a state in order hold finitely many entries, and their
    /// walks list what they hold.
    pub proof fn lemma_walks(&self)
        requires
            self.wf(),
        ensures
            self@.users.dom().finite(),
            self@.channels.dom().finite(),
            self@.messages.dom().finite(),
            self@.encrypted_messages.dom().finite(),
            crate::table::is_listing::<Identity>(user_walk(self@), self@.users.dom()),
            crate::table::is_listing::<u64>(channel_walk(self@), self@.channels.dom()),
            crate::table::is_listing::<u64>(message_walk(self@), self@.messages.dom()),
            crate::table::is_listing::<u64>(encrypted_walk(self@), self@.encrypted_messages.dom()),
            crate::table::is_listing::<Identity>(owner_walk(self@), self@.owners.dom()),
            crate::table::is_listing::<Identity>(share_walk(self@), self@.shares.dom()),
            user_walk(self@).len() == self@.users.dom().len(),
            channel_walk(self@).len() == self@.channels.dom().len(),
            message_walk(self@).len() == self@.messages.dom().len(),
            encrypted_walk(self@).len() == self@.encrypted_messages.dom().len(),
    {
        self.users.lemma_walk();
        self.channels.lemma_walk();
        self.messages.lemma_walk();
        self.encrypted_messages.lemma_walk();
        self.encrypted_message_owners.lemma_walk();
        self.encrypted_message_shares.lemma_walk();
    }

    /// The identity under which the user at place `i` of the walk is stored.
    pub(crate) fn user_key_at(&self, i: usize) -> (r: &Identity)
        requires
            self.wf(),
            i < user_walk(self@).len(),
        ensures
            r@ == user_walk(self@)[i as int],
    {
        proof {
            self.users.lemma_walk();
        }
        self.users.key_at(i)
    }

    /// The id under which the channel at place `i` of the walk is stored.
    pub(crate) fn channel_key_at(&self, i: usize) -> (r: u64)
        requires
            self.wf(),
            i < channel_walk(self@).len(),
        ensures
            r == channel_walk(self@)[i as int],
    {
        proof {
            self.channels.lemma_walk();
        }
        *self.channels.key_at(i)
    }

    /// The id under which the message at place `i` of the walk is stored.
    pub(crate) fn message_key_at(&self, i: usize) -> (r: u64)
        requires
            self.wf(),
            i < message_walk(self@).len(),
        ensures
            r == message_walk(self@)[i as int],
    {
        proof {
            self.messages.lemma_walk();
        }
        *self.messages.key_at(i)
    }

    /// The id under which the encrypted message at place `i` of the walk is
    /// stored.
    pub(crate) fn sealed_key_at(&self, i: usize) -> (r: u64)
        requires
            self.wf(),
            i < encrypted_walk(self@).len(),
        ensures
            r == encrypted_walk(self@)[i as int],
    {
        proof {
            self.encrypted_messages.lemma_walk();
        }
        *self.encrypted_messages.key_at(i)
    }

    /// The number of identities in the owner index.
    pub(crate) fn owner_count(&self) -> (r: usize)
        requires
            self.wf(),
        ensures
            r == owner_walk(self@).len(),
    {
        proof {
            self.encrypted_message_owners.lemma_walk();
        }
        self.encrypted_message_owners.len()
    }

    /// The identity at place `i` of the owner index.
    pub(crate) fn owner_key_at(&self, i: usize) -> (r: &Identity)
        requires
            self.wf(),
            i < owner_walk(self@).len(),
        ensures
            r@ == owner_walk(self@)[i as int],
    {
        proof {
            self.encrypted_message_owners.lemma_walk();
        }
        self.encrypted_message_owners.key_at(i)
    }

    /// The list at place `i` of the owner index.
    pub(crate) fn owner_ids_at(&self, i: usize) -> (r: &MessageIds)
        requires
            self.wf(),
            i < owner_walk(self@).len(),
        ensures
            self@.owners.contains_key(owner_walk(self@)[i as int]),
            r@ == self@.owners[owner_walk(self@)[i as int]],
    {
        proof {
            self.encrypted_message_owners.lemma_walk();
        }
        self.encrypted_message_owners.value_at(i)
    }

    /// The number of identities in the share index.
    pub(crate) fn share_count(&self) -> (r: usize)
        requires
            self.wf(),
        ensures
            r == share_walk(self@).len(),
    {
        proof {
            self.encrypted_message_shares.lemma_walk();
        }
        self.encrypted_message_shares.len()
    }

    /// The identity at place `i` of the share index.
    pub(crate) fn share_key_at(&self, i: usize) -> (r: &Identity)
        requires
            self.wf(),
            i < share_walk(self@).len(),
        ensures
            r@ == share_walk(self@)[i as int],
    {
        proof {
            self.encrypted_message_shares.lemma_walk();
        }
        self.encrypted_message_shares.key_at(i)
    }

    /// The list at place `i` of the share index.
    pub(crate) fn share_ids_at(&self, i: usize) -> (r: &MessageIds)
        requires
            self.wf(),
            i < share_walk(self@).len(),
        ensures
            self@.shares.contains_key(share_walk(self@)[i as int]),
            r@ == self@.shares[share_walk(self@)[i as int]],
    {
        proof {
            self.encrypted_message_shares.lemma_walk();
        }
        self.encrypted_message_shares.value_at(i)
    }

    /// The user stored for `who`.
    pub(crate) fn user(&self, who: &Identity) -> (r: Option<&User>)
        requires
            self.wf(),
        ensures
            match r {
                Some(u) => self@.users.contains_key(who@) && u@ == self@.users[who@],
                None => !self@.users.contains_key(who@),
            },
    {
        self.users.get(who)
    }

    /// Whether `who` is registered.
    pub(crate) fn has_user(&self, who: &Identity) -> (r: bool)
        requires
            self.wf(),
        ensures
            r == self@.users.contains_key(who@),
    {
        self.users.contains_key(who)
    }

    /// Stores `user` under its identity.
    pub(crate) fn put_user(&mut self, user: User)
        requires
            old(self).wf(),
        ensures
            final(self).wf(),
            final(self)@ == (ChatView {
                users: old(self)@.users.insert(user.user_principal@, user@),
                ..old(self)@
            }),
    {
        let key = user.user_principal.clone();
        self.users.insert(key, user);
    }

    /// Changes the user stored for `who`: `change` is handed the user, and
    /// what it hands back is stored in its place. Returns whether there was
    /// a user to change.
    pub(crate) fn change_user<F: FnOnce(&User) -> User>(&mut self, who: &Identity, change: F) -> (r:
        bool)
        requires
            old(self).wf(),
            forall|u: &User|
                old(self)@.users.contains_key(who@) && u@ == old(self)@.users[who@]
                    ==> #[trigger] change.requires((u,)),
        ensures
            final(self).wf(),
            r == old(self)@.users.contains_key(who@),
            !r ==> final(self)@ == old(self)@,
            r ==> exists|u: User, v: User|
                u@ == old(self)@.users[who@] && change.ensures((&u,), v) && final(self)@ == (ChatView {
                    users: old(self)@.users.insert(who@, v@),
                    ..old(self)@
                }),
    {
        self.users.update(who, change)
    }

    /// The number of users.
    pub(crate) fn user_count(&self) -> (r: usize)
        requires
            self.wf(),
        ensures
            r == user_walk(self@).len(),
            r == self@.users.dom().len(),
    {
        proof {
            self.users.lemma_walk();
        }
        self.users.len()
    }

    /// The user at place `i` of the walk.
    pub(crate) fn user_at(&self, i: usize) -> (r: &User)
        requires
            self.wf(),
            i < user_walk(self@).len(),
        ensures
            self@.users.contains_key(user_walk(self@)[i as int]),
            r@ == self@.users[user_walk(self@)[i as int]],
    {
        proof {
            self.users.lemma_walk();
        }
        self.users.value_at(i)
    }

    /// The channel stored under `id`.
    pub(crate) fn channel(&self, id: u64) -> (r: Option<&Channel>)
        requires
            self.wf(),
        ensures
            match r {
                Some(c) => self@.channels.contains_key(id) && c@ == self@.channels[id],
                None => !self@.channels.contains_key(id),
            },
    {
        self.channels.get(&id)
    }

    /// Stores `channel` under its id.
    pub(crate) fn put_channel(&mut self, channel: Channel)
        requires
            old(self).wf(),
        ensures
            final(self).wf(),
            final(self)@ == (ChatView {
                channels: old(self)@.channels.insert(channel.id, channel@),
                ..old(self)@
            }),
    {
        let key = channel.id;
        self.channels.insert(key, channel);
    }

    /// Changes the channel stored under `id`: `change` is handed the
    /// channel, and what it hands back is stored in its place. Returns
    /// whether there was a channel to change.
    pub(crate) fn change_channel<F: FnOnce(&Channel) -> Channel>(&mut self, id: u64, change: F) -> (r:
        bool)
        requires
            old(self).wf(),
            forall|c: &Channel|
                old(self)@.channels.contains_key(id) && c@ == old(self)@.channels[id]
                    ==> #[trigger] change.requires((c,)),
        ensures
            final(self).wf(),
            r == old(self)@.channels.contains_key(id),
            !r ==> final(self)@ == old(self)@,
            r ==> exists|c: Channel, v: Channel|
                c@ == old(self)@.channels[id] && change.ensures((&c,), v) && final(self)@ == (ChatView {
                    channels: old(self)@.channels.insert(id, v@),
                    ..old(self)@
                }),
    {
        self.channels.update(&id, change)
    }

    /// Takes the channel under `id` out of the table.
    pub(crate) fn remove_channel(&mut self, id: u64)
        requires
            old(self).wf(),
        ensures
            final(self).wf(),
            final(self)@ == (ChatView { channels: old(self)@.channels.remove(id), ..old(self)@ }),
    {
        let _ = self.channels.remove(&id);
    }

    /// The number of channels.
    pub(crate) fn channel_count(&self) -> (r: usize)
        requires
            self.wf(),
        ensures
            r == channel_walk(self@).len(),
            r == self@.channels.dom().len(),
    {
        proof {
            self.channels.lemma_walk();
        }
        self.channels.len()
    }

    /// The channel at place `i` of the walk.
    pub(crate) fn channel_at(&self, i: usize) -> (r: &Channel)
        requires
            self.wf(),
            i < channel_walk(self@).len(),
        ensures
            self@.channels.contains_key(channel_walk(self@)[i as int]),
            r@ == self@.channels[channel_walk(self@)[i as int]],
    {
        proof {
            self.channels.lemma_walk();
        }
        self.channels.value_at(i)
    }

    /// The message stored under `id`.
    pub(crate) fn message(&self, id: u64) -> (r: Option<&Message>)
        requires
            self.wf(),
        ensures
            match r {
                Some(m) => self@.messages.contains_key(id) && m@ == self@.messages[id],
                None => !self@.messages.contains_key(id),
            },
    {
        self.messages.get(&id)
    }

    /// Stores `message` under its id.
    pub(crate) fn put_message(&mut self, message: Message)
        requires
            old(self).wf(),
        ensures
            final(self).wf(),
            final(self)@ == (ChatView {
                messages: old(self)@.messages.insert(message.id, message@),
                ..old(self)@
            }),
    {
        let key = message.id;
        self.messages.insert(key, message);
    }

    /// The number of messages.
    pub(crate) fn message_count(&self) -> (r: usize)
        requires
            self.wf(),
        ensures
            r == message_walk(self@).len(),
            r == self@.messages.dom().len(),
    {
        proof {
            self.messages.lemma_walk();
        }
        self.messages.len()
    }

    /// The message at place `i` of the walk.
    pub(crate) fn message_at(&self, i: usize) -> (r: &Message)
        requires
            self.wf(),
            i < message_walk(self@).len(),
        ensures
            self@.messages.contains_key(message_walk(self@)[i as int]),
            r@ == self@.messages[message_walk(self@)[i as int]],
    {
        proof {
            self.messages.lemma_walk();
        }
        self.messages.value_at(i)
    }

    /// The encrypted message stored under `id`.
    pub(crate) fn sealed_message(&self, id: u64) -> (r: Option<&EncryptedMessage>)
        requires
            self.wf(),
        ensures
            match r {
                Some(m) => self@.encrypted_messages.contains_key(id) && m@
                    == self@.encrypted_messages[id],
                None => !self@.encrypted_messages.contains_key(id),
            },
    {
        self.encrypted_messages.get(&id)
    }

    /// Stores an encrypted message under its id.
    pub(crate) fn put_sealed_message(&mut self, message: EncryptedMessage)
        requires
            old(self).wf(),
        ensures
            final(self).wf(),
            final(self)@ == (ChatView {
                encrypted_messages: old(self)@.encrypted_messages.insert(message.id, message@),
                ..old(self)@
            }),
    {
        let key = message.id;
        self.encrypted_messages.insert(key, message);
    }

    /// Changes the encrypted message stored under `id`: `change` is handed
    /// the message, and what it hands back is stored in its place. Returns
    /// whether there was a message to change.
    pub(crate) fn change_sealed_message<F: FnOnce(&EncryptedMessage) -> EncryptedMessage>(
        &mut self,
        id: u64,
        change: F,
    ) -> (r: bool)
        requires
            old(self).wf(),
            forall|m: &EncryptedMessage|
                old(self)@.encrypted_messages.contains_key(id) && m@
                    == old(self)@.encrypted_messages[id] ==> #[trigger] change.requires((m,)),
        ensures
            final(self).wf(),
            r == old(self)@.encrypted_messages.contains_key(id),
            !r ==> final(self)@ == old(self)@,
            r ==> exists|m: EncryptedMessage, v: EncryptedMessage|
                m@ == old(self)@.encrypted_messages[id] && change.ensures((&m,), v) && final(self)@
                    == (ChatView {
                    encrypted_messages: old(self)@.encrypted_messages.insert(id, v@),
                    ..old(self)@
                }),
    {
        self.encrypted_messages.update(&id, change)
    }

    /// Takes the encrypted message under `id` out of the table.
    pub(crate) fn remove_sealed_message(&mut self, id: u64)
        requires
            old(self).wf(),
        ensures
            final(self).wf(),
            final(self)@ == (ChatView {
                encrypted_messages: old(self)@.encrypted_messages.remove(id),
                ..old(self)@
            }),
    {
        let _ = self.encrypted_messages.remove(&id);
    }

    /// The number of encrypted messages.
    pub(crate) fn sealed_count(&self) -> (r: usize)
        requires
            self.wf(),
        ensures
            r == encrypted_walk(self@).len(),
            r == self@.encrypted_messages.dom().len(),
    {
        proof {
            self.encrypted_messages.lemma_walk();
        }
        self.encrypted_messages.len()
    }

    /// The encrypted message at place `i` of the walk.
    pub(crate) fn sealed_at(&self, i: usize) -> (r: &EncryptedMessage)
        requires
            self.wf(),
            i < encrypted_walk(self@).len(),
        ensures
            self@.encrypted_messages.contains_key(encrypted_walk(self@)[i as int]),
            r@ == self@.encrypted_messages[encrypted_walk(self@)[i as int]],
    {
        proof {
            self.encrypted_messages.lemma_walk();
        }
        self.encrypted_messages.value_at(i)
    }

    /// The ids of the encrypted messages that `who` wrote.
    pub(crate) fn owned_ids(&self, who: &Identity) -> (r: Option<&MessageIds>)
        requires
            self.wf(),
        ensures
            match r {
                Some(ids) => self@.owners.contains_key(who@) && ids@ == self@.owners[who@],
                None => !self@.owners.contains_key(who@),
            },
    {
        self.encrypted_message_owners.get(who)
    }

    /// Stores the ids of the encrypted messages that `who` wrote.
    pub(crate) fn put_owned_ids(&mut self, who: &Identity, ids: MessageIds)
        requires
            old(self).wf(),
        ensures
            final(self).wf(),
            final(self)@ == (ChatView { owners: old(self)@.owners.insert(who@, ids@), ..old(self)@ }),
    {
        self.encrypted_message_owners.insert(who.clone(), ids);
    }

    /// Drops `who` from the owner index.
    pub(crate) fn remove_owned_ids(&mut self, who: &Identity)
        requires
            old(self).wf(),
        ensures
            final(self).wf(),
            final(self)@ == (ChatView { owners: old(self)@.owners.remove(who@), ..old(self)@ }),
    {
        let _ = self.encrypted_message_owners.remove(who);
    }

    /// The ids of the encrypted messages that are shared with `who`.
    pub(crate) fn shared_ids(&self, who: &Identity) -> (r: Option<&MessageIds>)
        requires
            self.wf(),
        ensures
            match r {
                Some(ids) => self@.shares.contains_key(who@) && ids@ == self@.shares[who@],
                None => !self@.shares.contains_key(who@),
            },
    {
        self.encrypted_message_shares.get(who)
    }

    /// Stores the ids of the encrypted messages that are shared with `who`.
    pub(crate) fn put_shared_ids(&mut self, who: &Identity, ids: MessageIds)
        requires
            old(self).wf(),
        ensures
            final(self).wf(),
            final(self)@ == (ChatView { shares: old(self)@.shares.insert(who@, ids@), ..old(self)@ }),
    {
        self.encrypted_message_shares.insert(who.clone(), ids);
    }

    /// Drops `who` from the share index.
    pub(crate) fn remove_shared_ids(&mut self, who: &Identity)
        requires
            old(self).wf(),
        ensures
            final(self).wf(),
            final(self)@ == (ChatView { shares: old(self)@.shares.remove(who@), ..old(self)@ }),
    {
        let _ = self.encrypted_message_shares.remove(who);
    }

    /// Raises the counter for channel ids to `least`, if it is below.
    pub(crate) fn raise_channel_id(&mut self, least: u64)
        requires
            old(self).wf(),
        ensures
            final(self).wf(),
            final(self)@ == (ChatView {
                next_channel_id: if old(self)@.next_channel_id < least {
                    least
                } else {
                    old(self)@.next_channel_id
                },
                ..old(self)@
            }),
    {
        if self.next_channel_id < least {
            self.next_channel_id = least;
        }
    }

    /// The id that the next message will get.
    pub fn peek_message_id(&self) -> (r: u64)
        ensures
            r == self@.next_message_id,
    {
        self.next_message_id
    }

    /// The id that the next channel will get.
    pub fn peek_channel_id(&self) -> (r: u64)
        ensures
            r == self@.next_channel_id,
    {
        self.next_channel_id
    }

    /// The name of the key from which encryption material is derived.
    pub fn key_name(&self) -> (r: &String)
        ensures
            r@ == self@.key_name,
    {
        &self.key_name
    }
}

/// Takes the next id for a message: the id is never given out again.
pub fn next_message_id(state: &mut ChatState) -> (r: u64)
    requires
        old(state).inv(),
        old(state)@.next_message_id < u64::MAX,
    ensures
        final(state).inv(),
        r == old(state)@.next_message_id,
        final(state)@ == (ChatView { next_message_id: (r + 1) as u64, ..old(state)@ }),
{
    let current = state.next_message_id;
    state.next_message_id = current + 1;
    current
}

/// Takes the next id for a channel: the id is never given out again.
pub fn next_channel_id(state: &mut ChatState) -> (r: u64)
    requires
        old(state).inv(),
        old(state)@.next_channel_id < u64::MAX,
    ensures
        final(state).inv(),
        r == old(state)@.next_channel_id,
        final(state)@ == (ChatView { next_channel_id: (r + 1) as u64, ..old(state)@ }),
{
    let current = state.next_channel_id;
    state.next_channel_id = current + 1;
    current
}

} // verus!
