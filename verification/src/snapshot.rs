//! Taking the state apart and putting it together again.
//!
//! A snapshot lists everything that the state holds. A state can be built
//! from a snapshot only where the snapshot describes a valid state: whether
//! it does is decided by a test that is proved to decide just that, so that
//! nothing needs to be taken on trust from wherever a snapshot was kept.
//! Records of two kinds that were written before the rules were as they are
//! can be mended first: see [`restore_mended`].

use crate::encrypted::{holds_id, strip_shared, stripped};
use crate::identity::Identity;
use crate::model::{
    holds_identity, Channel, ChannelView, EncryptedMessage, EncryptedMessageView, Message,
    MessageIds, MessageView, User, UserView,
};
use crate::state::{
    channel_walk, channels_valid, encrypted_valid, encrypted_walk, message_walk, messages_valid,
    names, owner_walk, owners_valid, share_walk, shares_valid, user_walk, users_valid, valid,
    ChatState, ChatView, EXPIRY_NS, GENERAL_CHANNEL, MAX_SHARES,
};
use crate::table::{is_listing, lemma_ascending_distinct};
use vstd::prelude::*;

verus! {

/// Decides [`users_valid`].
fn users_are_valid(state: &ChatState) -> (r: bool)
    requires
        state.wf(),
    ensures
        r == users_valid(state@),
{
    proof {
        state.lemma_walks();
    }
    let ghost walk = user_walk(state@);
    let limit = state.peek_message_id();
    let n = state.user_count();
    let mut i: usize = 0;
    while i < n
        invariant
            state.wf(),
            walk == user_walk(state@),
            is_listing::<Identity>(walk, state@.users.dom()),
            limit == state@.next_message_id,
            n == walk.len(),
            i <= n,
            forall|j: int|
                0 <= j < i ==> (#[trigger] state@.users[walk[j]]).user_principal == walk[j]
                    && state@.users[walk[j]].message_count < limit,
        decreases n - i,
    {
        let key = state.user_key_at(i);
        let user = state.user_at(i);
        if !user.user_principal.same(key) || user.message_count >= limit {
            return false;
        }
        i += 1;
    }
    assert forall|k: Seq<u8>| #[trigger] state@.users.contains_key(k) implies state@.users[k].user_principal
        == k && state@.users[k].message_count < limit by {
        assert(walk.contains(k));
        let j = walk.index_of(k);
        assert(state@.users[walk[j]].user_principal == walk[j]);
    }
    true
}

/// Decides [`channels_valid`].
fn channels_are_valid(state: &ChatState) -> (r: bool)
    requires
        state.wf(),
    ensures
        r == channels_valid(state@),
{
    proof {
        state.lemma_walks();
    }
    let ghost walk = channel_walk(state@);
    let limit = state.peek_message_id();
    let next = state.peek_channel_id();
    let n = state.channel_count();
    let mut i: usize = 0;
    while i < n
        invariant
            state.wf(),
            walk == channel_walk(state@),
            is_listing::<u64>(walk, state@.channels.dom()),
            limit == state@.next_message_id,
            next == state@.next_channel_id,
            n == walk.len(),
            i <= n,
            forall|j: int|
                0 <= j < i ==> (#[trigger] state@.channels[walk[j]]).id == walk[j] && (walk[j]
                    == GENERAL_CHANNEL || walk[j] < next) && state@.channels[walk[j]].message_count
                    < limit && state@.channels[walk[j]].members.no_duplicates(),
        decreases n - i,
    {
        let key = state.channel_key_at(i);
        let channel = state.channel_at(i);
        if channel.id != key || !(key == GENERAL_CHANNEL || key < next) || channel.message_count
            >= limit || !identities_are_distinct(&channel.members) {
            return false;
        }
        i += 1;
    }
    assert forall|k: u64| #[trigger] state@.channels.contains_key(k) implies state@.channels[k].id
        == k && (k == GENERAL_CHANNEL || k < next) && state@.channels[k].message_count < limit
        && state@.channels[k].members.no_duplicates() by {
        assert(walk.contains(k));
        let j = walk.index_of(k);
        assert(state@.channels[walk[j]].id == walk[j]);
    }
    true
}

/// Decides [`messages_valid`].
fn messages_are_valid(state: &ChatState) -> (r: bool)
    requires
        state.wf(),
    ensures
        r == messages_valid(state@),
{
    proof {
        state.lemma_walks();
    }
    let ghost walk = message_walk(state@);
    let limit = state.peek_message_id();
    let n = state.message_count();
    let mut i: usize = 0;
    while i < n
        invariant
            state.wf(),
            walk == message_walk(state@),
            is_listing::<u64>(walk, state@.messages.dom()),
            limit == state@.next_message_id,
            n == walk.len(),
            i <= n,
            forall|j: int|
                0 <= j < i ==> (#[trigger] state@.messages[walk[j]]).id == walk[j] && walk[j]
                    < limit,
        decreases n - i,
    {
        let key = state.message_key_at(i);
        let message = state.message_at(i);
        if message.id != key || key >= limit {
            return false;
        }
        i += 1;
    }
    assert forall|k: u64| #[trigger] state@.messages.contains_key(k) implies state@.messages[k].id
        == k && k < limit by {
        assert(walk.contains(k));
        let j = walk.index_of(k);
        assert(state@.messages[walk[j]].id == walk[j]);
    }
    true
}

/// Whether no identity is in `list` twice.
fn identities_are_distinct(list: &Vec<Identity>) -> (r: bool)
    ensures
        r == list.deep_view().no_duplicates(),
{
    let ghost all = list.deep_view();
    let mut i: usize = 0;
    while i < list.len()
        invariant
            all == list.deep_view(),
            i <= list.len(),
            forall|a: int, b: int| 0 <= a < b < i ==> all[a] != all[b],
        decreases list.len() - i,
    {
        let mut j: usize = 0;
        while j < i
            invariant
                all == list.deep_view(),
                i < list.len(),
                j <= i,
                forall|a: int| 0 <= a < j ==> all[a] != all[i as int],
            decreases i - j,
        {
            if list[j].same(&list[i]) {
                assert(all[j as int] == all[i as int]);
                return false;
            }
            j += 1;
        }
        i += 1;
    }
    true
}

/// Whether no id is in `list` twice.
fn ids_are_distinct(list: &Vec<u64>) -> (r: bool)
    ensures
        r == list@.no_duplicates(),
{
    let mut i: usize = 0;
    while i < list.len()
        invariant
            i <= list.len(),
            forall|a: int, b: int| 0 <= a < b < i ==> list@[a] != list@[b],
        decreases list.len() - i,
    {
        let mut j: usize = 0;
        while j < i
            invariant
                i < list.len(),
                j <= i,
                forall|a: int| 0 <= a < j ==> list@[a] != list@[i as int],
            decreases i - j,
        {
            if list[j] == list[i] {
                return false;
            }
            j += 1;
        }
        i += 1;
    }
    true
}

/// What [`encrypted_valid`] asks of one message stored under `id`.
pub open spec fn sealed_message_valid(s: ChatView, id: u64) -> bool {
    let m = s.encrypted_messages[id];
    &&& m.id == id
    &&& id < s.next_message_id
    &&& m.expires_at == m.timestamp + EXPIRY_NS
    &&& m.shared_with.len() <= MAX_SHARES
    &&& m.shared_with.no_duplicates()
    &&& !m.shared_with.contains(m.author)
}

/// Decides [`encrypted_valid`].
fn encrypted_are_valid(state: &ChatState) -> (r: bool)
    requires
        state.wf(),
    ensures
        r == encrypted_valid(state@),
{
    proof {
        state.lemma_walks();
    }
    let ghost walk = encrypted_walk(state@);
    let limit = state.peek_message_id();
    let n = state.sealed_count();
    let mut i: usize = 0;
    while i < n
        invariant
            state.wf(),
            walk == encrypted_walk(state@),
            is_listing::<u64>(walk, state@.encrypted_messages.dom()),
            limit == state@.next_message_id,
            n == walk.len(),
            i <= n,
            forall|j: int| 0 <= j < i ==> sealed_message_valid(state@, #[trigger] walk[j]),
        decreases n - i,
    {
        let key = state.sealed_key_at(i);
        let message = state.sealed_at(i);
        let ok = message.id == key && key < limit && message.timestamp <= u64::MAX - EXPIRY_NS
            && message.expires_at == message.timestamp + EXPIRY_NS && message.shared_with.len()
            <= MAX_SHARES && identities_are_distinct(&message.shared_with) && !holds_identity(
            &message.shared_with,
            &message.author,
        );
        if !ok {
            assert(!sealed_message_valid(state@, key));
            return false;
        }
        i += 1;
    }
    assert forall|k: u64| #[trigger] state@.encrypted_messages.contains_key(k) implies sealed_message_valid(
        state@,
        k,
    ) by {
        assert(walk.contains(k));
        let j = walk.index_of(k);
        assert(sealed_message_valid(state@, walk[j]));
    }
    true
}

/// What [`owners_valid`] asks of the list of `who`.
pub open spec fn owned_list_valid(s: ChatView, who: Seq<u8>) -> bool {
    &&& s.owners[who].len() > 0
    &&& s.owners[who].no_duplicates()
    &&& forall|id: u64| #[trigger]
        s.owners[who].contains(id) ==> s.encrypted_messages.contains_key(id)
            && s.encrypted_messages[id].author == who
}

/// Whether each of `ids` is the id of a message that `who` wrote.
fn all_written_by(state: &ChatState, ids: &Vec<u64>, who: &Identity) -> (r: bool)
    requires
        state.wf(),
    ensures
        r == forall|id: u64| #[trigger]
            ids@.contains(id) ==> state@.encrypted_messages.contains_key(id)
                && state@.encrypted_messages[id].author == who@,
{
    let mut i: usize = 0;
    while i < ids.len()
        invariant
            state.wf(),
            i <= ids.len(),
            forall|j: int|
                0 <= j < i ==> state@.encrypted_messages.contains_key(#[trigger] ids@[j])
                    && state@.encrypted_messages[ids@[j]].author == who@,
        decreases ids.len() - i,
    {
        let written = match state.sealed_message(ids[i]) {
            Some(message) => message.author.same(who),
            None => false,
        };
        if !written {
            assert(ids@.contains(ids@[i as int]));
            return false;
        }
        i += 1;
    }
    assert forall|id: u64| #[trigger] ids@.contains(id) implies state@.encrypted_messages.contains_key(
        id,
    ) && state@.encrypted_messages[id].author == who@ by {
        let j = ids@.index_of(id);
        assert(ids@[j] == id);
    }
    true
}

/// Whether each of `ids` is the id of a message that is shared with `who`.
fn all_shared_with(state: &ChatState, ids: &Vec<u64>, who: &Identity) -> (r: bool)
    requires
        state.wf(),
    ensures
        r == forall|id: u64| #[trigger]
            ids@.contains(id) ==> state@.encrypted_messages.contains_key(id)
                && state@.encrypted_messages[id].shared_with.contains(who@),
{
    let mut i: usize = 0;
    while i < ids.len()
        invariant
            state.wf(),
            i <= ids.len(),
            forall|j: int|
                0 <= j < i ==> state@.encrypted_messages.contains_key(#[trigger] ids@[j])
                    && state@.encrypted_messages[ids@[j]].shared_with.contains(who@),
        decreases ids.len() - i,
    {
        let shared = match state.sealed_message(ids[i]) {
            Some(message) => holds_identity(&message.shared_with, who),
            None => false,
        };
        if !shared {
            assert(ids@.contains(ids@[i as int]));
            return false;
        }
        i += 1;
    }
    assert forall|id: u64| #[trigger] ids@.contains(id) implies state@.encrypted_messages.contains_key(
        id,
    ) && state@.encrypted_messages[id].shared_with.contains(who@) by {
        let j = ids@.index_of(id);
        assert(ids@[j] == id);
    }
    true
}

/// Decides [`owners_valid`].
fn owners_are_valid(state: &ChatState) -> (r: bool)
    requires
        state.wf(),
    ensures
        r == owners_valid(state@),
{
    proof {
        state.lemma_walks();
    }
    let ghost walk = owner_walk(state@);
    let n = state.owner_count();
    let mut i: usize = 0;
    while i < n
        invariant
            state.wf(),
            walk == owner_walk(state@),
            is_listing::<Identity>(walk, state@.owners.dom()),
            n == walk.len(),
            i <= n,
            forall|j: int| 0 <= j < i ==> owned_list_valid(state@, #[trigger] walk[j]),
        decreases n - i,
    {
        let who = state.owner_key_at(i);
        let list = state.owner_ids_at(i);
        let ok = list.ids.len() > 0 && ids_are_distinct(&list.ids) && all_written_by(
            state,
            &list.ids,
            who,
        );
        if !ok {
            proof {
                let w = walk[i as int];
                assert(state@.owners.contains_key(w));
                if owners_valid(state@) {
                    assert forall|id: u64| #[trigger]
                        state@.owners[w].contains(id) implies state@.encrypted_messages.contains_key(
                        id,
                    ) && state@.encrypted_messages[id].author == w by {
                        assert(names(state@.owners, w, id));
                    }
                }
            }
            return false;
        }
        i += 1;
    }
    proof {
        assert forall|who: Seq<u8>| #[trigger] state@.owners.contains_key(who) implies owned_list_valid(
            state@,
            who,
        ) by {
            assert(walk.contains(who));
            let j = walk.index_of(who);
            assert(owned_list_valid(state@, walk[j]));
        }
    }
    let ghost sealed = encrypted_walk(state@);
    let m = state.sealed_count();
    let mut k: usize = 0;
    while k < m
        invariant
            state.wf(),
            sealed == encrypted_walk(state@),
            is_listing::<u64>(sealed, state@.encrypted_messages.dom()),
            m == sealed.len(),
            k <= m,
            forall|j: int|
                0 <= j < k ==> names(
                    state@.owners,
                    state@.encrypted_messages[sealed[j]].author,
                    #[trigger] sealed[j],
                ),
        decreases m - k,
    {
        let id = state.sealed_key_at(k);
        let message = state.sealed_at(k);
        let listed = match state.owned_ids(&message.author) {
            Some(list) => holds_id(&list.ids, id),
            None => false,
        };
        if !listed {
            assert(state@.encrypted_messages.contains_key(id));
            return false;
        }
        k += 1;
    }
    proof {
        assert forall|id: u64| #[trigger] state@.encrypted_messages.contains_key(id) implies names(
            state@.owners,
            state@.encrypted_messages[id].author,
            id,
        ) by {
            assert(sealed.contains(id));
            let j = sealed.index_of(id);
            assert(names(state@.owners, state@.encrypted_messages[sealed[j]].author, sealed[j]));
        }
        assert forall|who: Seq<u8>, id: u64| #[trigger]
            names(state@.owners, who, id) implies state@.encrypted_messages.contains_key(id)
            && state@.encrypted_messages[id].author == who by {
            assert(owned_list_valid(state@, who));
        }
        assert forall|who: Seq<u8>| #[trigger] state@.owners.contains_key(who) implies state@.owners[who].len()
            > 0 && state@.owners[who].no_duplicates() by {
            assert(owned_list_valid(state@, who));
        }
    }
    true
}

/// What [`shares_valid`] asks of the list of `who`.
pub open spec fn shared_list_valid(s: ChatView, who: Seq<u8>) -> bool {
    &&& s.shares[who].len() > 0
    &&& s.shares[who].no_duplicates()
    &&& forall|id: u64| #[trigger]
        s.shares[who].contains(id) ==> s.encrypted_messages.contains_key(id)
            && s.encrypted_messages[id].shared_with.contains(who)
}

/// Whether the share index names message `id` for each of `whom`.
fn all_listed(state: &ChatState, whom: &Vec<Identity>, id: u64) -> (r: bool)
    requires
        state.wf(),
    ensures
        r == forall|who: Seq<u8>| #[trigger]
            whom.deep_view().contains(who) ==> names(state@.shares, who, id),
{
    let ghost all = whom.deep_view();
    let mut i: usize = 0;
    while i < whom.len()
        invariant
            state.wf(),
            all == whom.deep_view(),
            i <= whom.len(),
            forall|j: int| 0 <= j < i ==> names(state@.shares, #[trigger] all[j], id),
        decreases whom.len() - i,
    {
        let listed = match state.shared_ids(&whom[i]) {
            Some(list) => holds_id(&list.ids, id),
            None => false,
        };
        if !listed {
            assert(all.contains(all[i as int]));
            return false;
        }
        i += 1;
    }
    assert forall|who: Seq<u8>| #[trigger] all.contains(who) implies names(
        state@.shares,
        who,
        id,
    ) by {
        let j = all.index_of(who);
        assert(all[j] == who);
    }
    true
}

/// Decides [`shares_valid`].
fn shares_are_valid(state: &ChatState) -> (r: bool)
    requires
        state.wf(),
    ensures
        r == shares_valid(state@),
{
    proof {
        state.lemma_walks();
    }
    let ghost walk = share_walk(state@);
    let n = state.share_count();
    let mut i: usize = 0;
    while i < n
        invariant
            state.wf(),
            walk == share_walk(state@),
            is_listing::<Identity>(walk, state@.shares.dom()),
            n == walk.len(),
            i <= n,
            forall|j: int| 0 <= j < i ==> shared_list_valid(state@, #[trigger] walk[j]),
        decreases n - i,
    {
        let who = state.share_key_at(i);
        let list = state.share_ids_at(i);
        let ok = list.ids.len() > 0 && ids_are_distinct(&list.ids) && all_shared_with(
            state,
            &list.ids,
            who,
        );
        if !ok {
            proof {
                let w = walk[i as int];
                assert(state@.shares.contains_key(w));
                if shares_valid(state@) {
                    assert forall|id: u64| #[trigger]
                        state@.shares[w].contains(id) implies state@.encrypted_messages.contains_key(
                        id,
                    ) && state@.encrypted_messages[id].shared_with.contains(w) by {
                        assert(names(state@.shares, w, id));
                    }
                }
            }
            return false;
        }
        i += 1;
    }
    proof {
        assert forall|who: Seq<u8>| #[trigger] state@.shares.contains_key(who) implies shared_list_valid(
            state@,
            who,
        ) by {
            assert(walk.contains(who));
            let j = walk.index_of(who);
            assert(shared_list_valid(state@, walk[j]));
        }
    }
    let ghost sealed = encrypted_walk(state@);
    let m = state.sealed_count();
    let mut k: usize = 0;
    while k < m
        invariant
            state.wf(),
            sealed == encrypted_walk(state@),
            is_listing::<u64>(sealed, state@.encrypted_messages.dom()),
            m == sealed.len(),
            k <= m,
            forall|j: int, who: Seq<u8>|
                0 <= j < k && #[trigger] state@.encrypted_messages[sealed[j]].shared_with.contains(
                    who,
                ) ==> names(state@.shares, who, sealed[j]),
        decreases m - k,
    {
        let id = state.sealed_key_at(k);
        let message = state.sealed_at(k);
        if !all_listed(state, &message.shared_with, id) {
            proof {
                assert(state@.encrypted_messages.contains_key(id));
                if shares_valid(state@) {
                    assert forall|who: Seq<u8>| #[trigger]
                        message.shared_with.deep_view().contains(who) implies names(
                        state@.shares,
                        who,
                        id,
                    ) by {
                        assert(state@.encrypted_messages[id].shared_with.contains(who));
                    }
                }
            }
            return false;
        }
        k += 1;
    }
    proof {
        assert forall|who: Seq<u8>, id: u64|
            state@.encrypted_messages.contains_key(id)
                && #[trigger] state@.encrypted_messages[id].shared_with.contains(
                who,
            ) implies names(state@.shares, who, id) by {
            assert(sealed.contains(id));
            let j = sealed.index_of(id);
            assert(sealed[j] == id);
        }
        assert forall|who: Seq<u8>, id: u64| #[trigger]
            names(state@.shares, who, id) implies state@.encrypted_messages.contains_key(id)
            && state@.encrypted_messages[id].shared_with.contains(who) by {
            assert(shared_list_valid(state@, who));
        }
        assert forall|who: Seq<u8>| #[trigger] state@.shares.contains_key(who) implies state@.shares[who].len()
            > 0 && state@.shares[who].no_duplicates() by {
            assert(shared_list_valid(state@, who));
        }
    }
    true
}

/// Decides whether the content of the tables is valid.
pub(crate) fn tables_are_valid(state: &ChatState) -> (r: bool)
    requires
        state.wf(),
    ensures
        r == valid(state@),
{
    proof {
        state.lemma_walks();
    }
    state.peek_message_id() >= 1 && state.peek_channel_id() >= 2 && users_are_valid(state)
        && channels_are_valid(state) && messages_are_valid(state) && encrypted_are_valid(state)
        && owners_are_valid(state) && shares_are_valid(state)
}

/// Everything that a state holds, as plain lists.
#[derive(Debug, PartialEq, Eq)]
pub struct Snapshot {
    pub users: Vec<User>,
    pub channels: Vec<Channel>,
    pub messages: Vec<Message>,
    pub encrypted_messages: Vec<EncryptedMessage>,
    /// The owner index: identities, each with the ids of the encrypted
    /// messages that it wrote.
    pub owners: Vec<(Identity, MessageIds)>,
    /// The share index: identities, each with the ids of the encrypted
    /// messages that are shared with it.
    pub shares: Vec<(Identity, MessageIds)>,
    pub next_message_id: u64,
    pub next_channel_id: u64,
    pub key_name: String,
}

/// The mathematical value of a [`Snapshot`].
pub struct SnapshotView {
    pub users: Seq<UserView>,
    pub channels: Seq<ChannelView>,
    pub messages: Seq<MessageView>,
    pub encrypted_messages: Seq<EncryptedMessageView>,
    pub owners: Seq<(Seq<u8>, Seq<u64>)>,
    pub shares: Seq<(Seq<u8>, Seq<u64>)>,
    pub next_message_id: u64,
    pub next_channel_id: u64,
    pub key_name: Seq<char>,
}

/// The view of a list of index entries.
pub open spec fn entries_view(list: Seq<(Identity, MessageIds)>) -> Seq<(Seq<u8>, Seq<u64>)> {
    Seq::new(list.len(), |i: int| (list[i].0@, list[i].1@))
}

impl View for Snapshot {
    type V = SnapshotView;

    open spec fn view(&self) -> SnapshotView {
        SnapshotView {
            users: self.users.deep_view(),
            channels: self.channels.deep_view(),
            messages: self.messages.deep_view(),
            encrypted_messages: self.encrypted_messages.deep_view(),
            owners: entries_view(self.owners@),
            shares: entries_view(self.shares@),
            next_message_id: self.next_message_id,
            next_channel_id: self.next_channel_id,
            key_name: self.key_name@,
        }
    }
}

/// The map that holds, for each place of `keys`, the value at that place
/// of `values`: of two places with one key the later counts.
pub open spec fn loaded_map<K, V>(keys: Seq<K>, values: Seq<V>) -> Map<K, V>
    decreases keys.len(),
{
    if keys.len() == 0 {
        Map::empty()
    } else {
        loaded_map(keys.drop_last(), values.drop_last()).insert(keys.last(), values.last())
    }
}

/// The state that a snapshot describes: every entity under its own key.
pub open spec fn loaded(v: SnapshotView) -> ChatView {
    ChatView {
        users: loaded_map(Seq::new(v.users.len(), |i: int| v.users[i].user_principal), v.users),
        channels: loaded_map(Seq::new(v.channels.len(), |i: int| v.channels[i].id), v.channels),
        messages: loaded_map(Seq::new(v.messages.len(), |i: int| v.messages[i].id), v.messages),
        encrypted_messages: loaded_map(
            Seq::new(v.encrypted_messages.len(), |i: int| v.encrypted_messages[i].id),
            v.encrypted_messages,
        ),
        owners: loaded_map(
            Seq::new(v.owners.len(), |i: int| v.owners[i].0),
            Seq::new(v.owners.len(), |i: int| v.owners[i].1),
        ),
        shares: loaded_map(
            Seq::new(v.shares.len(), |i: int| v.shares[i].0),
            Seq::new(v.shares.len(), |i: int| v.shares[i].1),
        ),
        next_message_id: v.next_message_id,
        next_channel_id: v.next_channel_id,
        key_name: v.key_name,
    }
}

/// Loading one entry more puts it into the map.
pub proof fn lemma_loaded_step<K, V>(keys: Seq<K>, values: Seq<V>, n: int)
    requires
        0 <= n < keys.len(),
        keys.len() == values.len(),
    ensures
        loaded_map(keys.take(n + 1), values.take(n + 1)) == loaded_map(
            keys.take(n),
            values.take(n),
        ).insert(keys[n], values[n]),
{
    assert(keys.take(n + 1).drop_last() =~= keys.take(n));
    assert(values.take(n + 1).drop_last() =~= values.take(n));
}

/// Loading the entries of a map, each key once, gives the map.
pub proof fn lemma_loaded_all<K, V>(keys: Seq<K>, values: Seq<V>, m: Map<K, V>)
    requires
        keys.no_duplicates(),
        keys.len() == values.len(),
        forall|i: int| 0 <= i < keys.len() ==> m.contains_key(#[trigger] keys[i]) && m[keys[i]] == values[i],
        forall|k: K| #[trigger] m.contains_key(k) ==> keys.contains(k),
    ensures
        loaded_map(keys, values) == m,
    decreases keys.len(),
{
    if keys.len() == 0 {
        assert forall|k: K| !m.contains_key(k) by {
            if m.contains_key(k) {
                assert(keys.contains(k));
            }
        }
        assert(m =~= Map::empty());
    } else {
        let last = keys.last();
        let front = keys.drop_last();
        let rest = m.remove(last);
        assert forall|k: K| rest.contains_key(k) implies front.contains(k) by {
            assert(m.contains_key(k));
            assert(keys.contains(k));
            let i = keys.index_of(k);
            assert(0 <= i < keys.len() && keys[i] == k);
            assert(i < front.len());
            assert(front[i] == k);
        }
        assert forall|i: int| 0 <= i < front.len() implies rest.contains_key(#[trigger] front[i])
            && rest[front[i]] == values.drop_last()[i] by {
            assert(keys[i] == front[i]);
            assert(keys[i] != keys[keys.len() - 1]);
        }
        lemma_loaded_all(front, values.drop_last(), rest);
        assert(m.contains_key(keys[keys.len() - 1]));
        assert(rest.insert(last, values.last()) =~= m);
    }
}

/// Puts the tables together that a snapshot lists, valid or not.
fn load(snapshot: &Snapshot) -> (state: ChatState)
    ensures
        state.wf(),
        state@ == loaded(snapshot@),
{
    let ghost v = snapshot@;
    let ghost target = loaded(v);
    let mut state = ChatState::empty(
        snapshot.next_message_id,
        snapshot.next_channel_id,
        snapshot.key_name.clone(),
    );
    let ghost user_keys = Seq::new(v.users.len(), |i: int| v.users[i].user_principal);
    let mut i: usize = 0;
    assert(user_keys.take(0) =~= Seq::empty());
    assert(state@.users =~= loaded_map(user_keys.take(0), v.users.take(0)));
    while i < snapshot.users.len()
        invariant
            v == snapshot@,
            state.wf(),
            user_keys == Seq::new(v.users.len(), |i: int| v.users[i].user_principal),
            i <= snapshot.users.len(),
            state@ == (ChatView {
                users: loaded_map(user_keys.take(i as int), v.users.take(i as int)),
                channels: Map::empty(),
                messages: Map::empty(),
                encrypted_messages: Map::empty(),
                owners: Map::empty(),
                shares: Map::empty(),
                next_message_id: v.next_message_id,
                next_channel_id: v.next_channel_id,
                key_name: v.key_name,
            }),
        decreases snapshot.users.len() - i,
    {
        proof {
            lemma_loaded_step(user_keys, v.users, i as int);
        }
        state.put_user(snapshot.users[i].clone());
        i += 1;
    }
    assert(user_keys.take(i as int) =~= user_keys);
    assert(v.users.take(i as int) =~= v.users);

    let ghost channel_keys = Seq::new(v.channels.len(), |i: int| v.channels[i].id);
    let mut i: usize = 0;
    assert(channel_keys.take(0) =~= Seq::empty());
    assert(state@.channels =~= loaded_map(channel_keys.take(0), v.channels.take(0)));
    while i < snapshot.channels.len()
        invariant
            v == snapshot@,
            state.wf(),
            channel_keys == Seq::new(v.channels.len(), |i: int| v.channels[i].id),
            i <= snapshot.channels.len(),
            state@ == (ChatView {
                users: target.users,
                channels: loaded_map(channel_keys.take(i as int), v.channels.take(i as int)),
                messages: Map::empty(),
                encrypted_messages: Map::empty(),
                owners: Map::empty(),
                shares: Map::empty(),
                next_message_id: v.next_message_id,
                next_channel_id: v.next_channel_id,
                key_name: v.key_name,
            }),
        decreases snapshot.channels.len() - i,
    {
        proof {
            lemma_loaded_step(channel_keys, v.channels, i as int);
        }
        state.put_channel(snapshot.channels[i].clone());
        i += 1;
    }
    assert(channel_keys.take(i as int) =~= channel_keys);
    assert(v.channels.take(i as int) =~= v.channels);

    let ghost message_keys = Seq::new(v.messages.len(), |i: int| v.messages[i].id);
    let mut i: usize = 0;
    assert(message_keys.take(0) =~= Seq::empty());
    assert(state@.messages =~= loaded_map(message_keys.take(0), v.messages.take(0)));
    while i < snapshot.messages.len()
        invariant
            v == snapshot@,
            state.wf(),
            message_keys == Seq::new(v.messages.len(), |i: int| v.messages[i].id),
            i <= snapshot.messages.len(),
            state@ == (ChatView {
                users: target.users,
                channels: target.channels,
                messages: loaded_map(message_keys.take(i as int), v.messages.take(i as int)),
                encrypted_messages: Map::empty(),
                owners: Map::empty(),
                shares: Map::empty(),
                next_message_id: v.next_message_id,
                next_channel_id: v.next_channel_id,
                key_name: v.key_name,
            }),
        decreases snapshot.messages.len() - i,
    {
        proof {
            lemma_loaded_step(message_keys, v.messages, i as int);
        }
        state.put_message(snapshot.messages[i].clone());
        i += 1;
    }
    assert(message_keys.take(i as int) =~= message_keys);
    assert(v.messages.take(i as int) =~= v.messages);

    let ghost sealed_keys = Seq::new(
        v.encrypted_messages.len(),
        |i: int| v.encrypted_messages[i].id,
    );
    let mut i: usize = 0;
    assert(sealed_keys.take(0) =~= Seq::empty());
    assert(state@.encrypted_messages =~= loaded_map(
        sealed_keys.take(0),
        v.encrypted_messages.take(0),
    ));
    while i < snapshot.encrypted_messages.len()
        invariant
            v == snapshot@,
            state.wf(),
            sealed_keys == Seq::new(
                v.encrypted_messages.len(),
                |i: int| v.encrypted_messages[i].id,
            ),
            i <= snapshot.encrypted_messages.len(),
            state@ == (ChatView {
                users: target.users,
                channels: target.channels,
                messages: target.messages,
                encrypted_messages: loaded_map(
                    sealed_keys.take(i as int),
                    v.encrypted_messages.take(i as int),
                ),
                owners: Map::empty(),
                shares: Map::empty(),
                next_message_id: v.next_message_id,
                next_channel_id: v.next_channel_id,
                key_name: v.key_name,
            }),
        decreases snapshot.encrypted_messages.len() - i,
    {
        proof {
            lemma_loaded_step(sealed_keys, v.encrypted_messages, i as int);
        }
        state.put_sealed_message(snapshot.encrypted_messages[i].clone());
        i += 1;
    }
    assert(sealed_keys.take(i as int) =~= sealed_keys);
    assert(v.encrypted_messages.take(i as int) =~= v.encrypted_messages);

    let ghost owner_keys = Seq::new(v.owners.len(), |i: int| v.owners[i].0);
    let ghost owner_lists = Seq::new(v.owners.len(), |i: int| v.owners[i].1);
    let mut i: usize = 0;
    assert(owner_keys.take(0) =~= Seq::empty());
    assert(state@.owners =~= loaded_map(owner_keys.take(0), owner_lists.take(0)));
    while i < snapshot.owners.len()
        invariant
            v == snapshot@,
            state.wf(),
            owner_keys == Seq::new(v.owners.len(), |i: int| v.owners[i].0),
            owner_lists == Seq::new(v.owners.len(), |i: int| v.owners[i].1),
            i <= snapshot.owners.len(),
            state@ == (ChatView {
                users: target.users,
                channels: target.channels,
                messages: target.messages,
                encrypted_messages: target.encrypted_messages,
                owners: loaded_map(owner_keys.take(i as int), owner_lists.take(i as int)),
                shares: Map::empty(),
                next_message_id: v.next_message_id,
                next_channel_id: v.next_channel_id,
                key_name: v.key_name,
            }),
        decreases snapshot.owners.len() - i,
    {
        proof {
            lemma_loaded_step(owner_keys, owner_lists, i as int);
        }
        state.put_owned_ids(&snapshot.owners[i].0, snapshot.owners[i].1.clone());
        i += 1;
    }
    assert(owner_keys.take(i as int) =~= owner_keys);
    assert(owner_lists.take(i as int) =~= owner_lists);

    let ghost share_keys = Seq::new(v.shares.len(), |i: int| v.shares[i].0);
    let ghost share_lists = Seq::new(v.shares.len(), |i: int| v.shares[i].1);
    let mut i: usize = 0;
    assert(share_keys.take(0) =~= Seq::empty());
    assert(state@.shares =~= loaded_map(share_keys.take(0), share_lists.take(0)));
    while i < snapshot.shares.len()
        invariant
            v == snapshot@,
            state.wf(),
            share_keys == Seq::new(v.shares.len(), |i: int| v.shares[i].0),
            share_lists == Seq::new(v.shares.len(), |i: int| v.shares[i].1),
            i <= snapshot.shares.len(),
            state@ == (ChatView {
                users: target.users,
                channels: target.channels,
                messages: target.messages,
                encrypted_messages: target.encrypted_messages,
                owners: target.owners,
                shares: loaded_map(share_keys.take(i as int), share_lists.take(i as int)),
                next_message_id: v.next_message_id,
                next_channel_id: v.next_channel_id,
                key_name: v.key_name,
            }),
        decreases snapshot.shares.len() - i,
    {
        proof {
            lemma_loaded_step(share_keys, share_lists, i as int);
        }
        state.put_shared_ids(&snapshot.shares[i].0, snapshot.shares[i].1.clone());
        i += 1;
    }
    assert(share_keys.take(i as int) =~= share_keys);
    assert(share_lists.take(i as int) =~= share_lists);
    assert(state@ == target);
    state
}

/// Puts the state together that a snapshot describes, if it describes a
/// valid state; else there is no state to hand back.
pub fn restore(snapshot: &Snapshot) -> (r: Option<ChatState>)
    ensures
        match r {
            Some(state) => state.inv() && state@ == loaded(snapshot@),
            None => !valid(loaded(snapshot@)),
        },
{
    let state = load(snapshot);
    if tables_are_valid(&state) {
        Some(state)
    } else {
        None
    }
}

/// `list` without `who`, the rest in its order.
pub open spec fn without_identity(list: Seq<Seq<u8>>, who: Seq<u8>) -> Seq<Seq<u8>>
    decreases list.len(),
{
    if list.len() == 0 {
        list
    } else if list.last() == who {
        without_identity(list.drop_last(), who)
    } else {
        without_identity(list.drop_last(), who).push(list.last())
    }
}

/// The state after the author of message `id` is taken from those the
/// message is shared with, and the message from the author's list in the
/// share index, if the message is there and is shared with its author.
pub open spec fn unshared_one(s: ChatView, id: u64) -> ChatView {
    if s.encrypted_messages.contains_key(id) && s.encrypted_messages[id].shared_with.contains(
        s.encrypted_messages[id].author,
    ) {
        let m = s.encrypted_messages[id];
        ChatView {
            encrypted_messages: s.encrypted_messages.insert(
                id,
                EncryptedMessageView {
                    shared_with: without_identity(m.shared_with, m.author),
                    ..m
                },
            ),
            shares: stripped(s.shares, m.author, id),
            ..s
        }
    } else {
        s
    }
}

/// The state after [`unshared_one`] for each of `ids` in turn.
pub open spec fn unshared(s: ChatView, ids: Seq<u64>) -> ChatView
    decreases ids.len(),
{
    if ids.len() == 0 {
        s
    } else {
        unshared(unshared_one(s, ids.first()), ids.drop_first())
    }
}

/// The state after mending: no message is shared with its own author any
/// more, and the counter for channel ids is at least 2. Nothing else is
/// changed.
pub open spec fn mended(s: ChatView) -> ChatView {
    let t = unshared(s, encrypted_walk(s));
    ChatView {
        next_channel_id: if t.next_channel_id < 2 {
            2
        } else {
            t.next_channel_id
        },
        ..t
    }
}

/// Mending changes nothing of a state in which no message is shared with
/// its author.
pub proof fn lemma_unshared_same(s: ChatView, ids: Seq<u64>)
    requires
        forall|id: u64| #[trigger]
            s.encrypted_messages.contains_key(id) ==> !s.encrypted_messages[id].shared_with.contains(
                s.encrypted_messages[id].author,
            ),
    ensures
        unshared(s, ids) == s,
    decreases ids.len(),
{
    if ids.len() > 0 {
        lemma_unshared_same(s, ids.drop_first());
    }
}

/// Mending changes nothing of a valid state.
pub proof fn law_mending_keeps_valid_states(s: ChatView)
    requires
        valid(s),
    ensures
        mended(s) == s,
{
    lemma_unshared_same(s, encrypted_walk(s));
}

/// A copy of `list` without `who`.
fn identities_without(list: &Vec<Identity>, who: &Identity) -> (r: Vec<Identity>)
    ensures
        r.deep_view() == without_identity(list.deep_view(), who@),
{
    let ghost all = list.deep_view();
    let mut r: Vec<Identity> = Vec::new();
    let mut i: usize = 0;
    assert(all.take(0) =~= Seq::<Seq<u8>>::empty());
    assert(r.deep_view() =~= without_identity(all.take(0), who@));
    while i < list.len()
        invariant
            all == list.deep_view(),
            i <= list.len(),
            r.deep_view() == without_identity(all.take(i as int), who@),
        decreases list.len() - i,
    {
        assert(all.take(i + 1).drop_last() =~= all.take(i as int));
        assert(all.take(i + 1).last() == list[i as int]@);
        let ghost sofar = r.deep_view();
        if !list[i].same(who) {
            r.push(list[i].clone());
            assert(r.deep_view() =~= sofar.push(list[i as int]@));
        }
        i += 1;
    }
    assert(all.take(i as int) =~= all);
    r
}

/// Mends the state: see [`mended`].
fn mend(state: &mut ChatState)
    requires
        old(state).wf(),
    ensures
        final(state).wf(),
        final(state)@ == mended(old(state)@),
{
    let ghost before = state@;
    let ghost walk = encrypted_walk(before);
    let n = state.sealed_count();
    let mut i: usize = 0;
    assert(walk.skip(0) =~= walk);
    while i < n
        invariant
            state.wf(),
            walk == encrypted_walk(before),
            n == walk.len(),
            i <= n,
            state@.encrypted_messages.dom() == before.encrypted_messages.dom(),
            unshared(state@, walk.skip(i as int)) == unshared(before, walk),
        decreases n - i,
    {
        let ghost here = state@;
        let id = state.sealed_key_at(i);
        assert(walk.skip(i as int).first() == id);
        assert(walk.skip(i as int).drop_first() =~= walk.skip(i + 1));
        let author = match state.sealed_message(id) {
            Some(message) => {
                if holds_identity(&message.shared_with, &message.author) {
                    Some(message.author.clone())
                } else {
                    None
                }
            },
            None => None,
        };
        match author {
            Some(author) => {
                let unshare = |message: &EncryptedMessage| -> (changed: EncryptedMessage)
                    ensures
                        changed@ == (EncryptedMessageView {
                            shared_with: without_identity(message@.shared_with, message@.author),
                            ..message@
                        }),
                    {
                        let mut changed = message.clone();
                        changed.shared_with = identities_without(
                            &message.shared_with,
                            &message.author,
                        );
                        changed
                    };
                let _ = state.change_sealed_message(id, unshare);
                strip_shared(state, &author, id);
                assert(state@.encrypted_messages.dom() =~= here.encrypted_messages.dom());
                assert(state@ == unshared_one(here, id));
            },
            None => {},
        }
        i += 1;
    }
    assert(walk.skip(i as int) =~= Seq::<u64>::empty());
    state.raise_channel_id(2);
}

/// Puts the state together that a snapshot describes after mending, if
/// that is a valid state; else there is no state to hand back. Where the
/// snapshot describes a valid state as it is, this is that state.
pub fn restore_mended(snapshot: &Snapshot) -> (r: Option<ChatState>)
    ensures
        match r {
            Some(state) => state.inv() && state@ == mended(loaded(snapshot@)),
            None => !valid(mended(loaded(snapshot@))),
        },
        valid(loaded(snapshot@)) ==> r is Some && r->0@ == loaded(snapshot@),
{
    let mut state = load(snapshot);
    mend(&mut state);
    proof {
        if valid(loaded(snapshot@)) {
            law_mending_keeps_valid_states(loaded(snapshot@));
        }
    }
    if tables_are_valid(&state) {
        Some(state)
    } else {
        None
    }
}

/// Lists everything that the state holds, each table in the order of its
/// keys. The state can be put together again from the list.
pub fn snapshot(state: &ChatState) -> (r: Snapshot)
    requires
        state.inv(),
    ensures
        loaded(r@) == state@,
        r@.users == Seq::new(user_walk(state@).len(), |i: int| state@.users[user_walk(state@)[i]]),
        r@.channels == Seq::new(
            channel_walk(state@).len(),
            |i: int| state@.channels[channel_walk(state@)[i]],
        ),
        r@.messages == Seq::new(
            message_walk(state@).len(),
            |i: int| state@.messages[message_walk(state@)[i]],
        ),
        r@.encrypted_messages == Seq::new(
            encrypted_walk(state@).len(),
            |i: int| state@.encrypted_messages[encrypted_walk(state@)[i]],
        ),
        r@.owners == Seq::new(
            owner_walk(state@).len(),
            |i: int| (owner_walk(state@)[i], state@.owners[owner_walk(state@)[i]]),
        ),
        r@.shares == Seq::new(
            share_walk(state@).len(),
            |i: int| (share_walk(state@)[i], state@.shares[share_walk(state@)[i]]),
        ),
        r@.next_message_id == state@.next_message_id,
        r@.next_channel_id == state@.next_channel_id,
        r@.key_name == state@.key_name,
{
    proof {
        state.lemma_walks();
    }
    let ghost s = state@;

    let mut users: Vec<User> = Vec::new();
    let n = state.user_count();
    let mut i: usize = 0;
    while i < n
        invariant
            state.wf(),
            s == state@,
            n == user_walk(s).len(),
            i <= n,
            users.len() == i,
            forall|j: int| 0 <= j < i ==> users[j]@ == s.users[user_walk(s)[j]],
        decreases n - i,
    {
        users.push(state.user_at(i).clone());
        i += 1;
    }

    let mut channels: Vec<Channel> = Vec::new();
    let n = state.channel_count();
    let mut i: usize = 0;
    while i < n
        invariant
            state.wf(),
            s == state@,
            n == channel_walk(s).len(),
            i <= n,
            channels.len() == i,
            forall|j: int| 0 <= j < i ==> channels[j]@ == s.channels[channel_walk(s)[j]],
        decreases n - i,
    {
        channels.push(state.channel_at(i).clone());
        i += 1;
    }

    let mut messages: Vec<Message> = Vec::new();
    let n = state.message_count();
    let mut i: usize = 0;
    while i < n
        invariant
            state.wf(),
            s == state@,
            n == message_walk(s).len(),
            i <= n,
            messages.len() == i,
            forall|j: int| 0 <= j < i ==> messages[j]@ == s.messages[message_walk(s)[j]],
        decreases n - i,
    {
        messages.push(state.message_at(i).clone());
        i += 1;
    }

    let mut encrypted_messages: Vec<EncryptedMessage> = Vec::new();
    let n = state.sealed_count();
    let mut i: usize = 0;
    while i < n
        invariant
            state.wf(),
            s == state@,
            n == encrypted_walk(s).len(),
            i <= n,
            encrypted_messages.len() == i,
            forall|j: int|
                0 <= j < i ==> encrypted_messages[j]@ == s.encrypted_messages[encrypted_walk(s)[j]],
        decreases n - i,
    {
        encrypted_messages.push(state.sealed_at(i).clone());
        i += 1;
    }

    let mut owners: Vec<(Identity, MessageIds)> = Vec::new();
    let n = state.owner_count();
    let mut i: usize = 0;
    while i < n
        invariant
            state.wf(),
            s == state@,
            n == owner_walk(s).len(),
            i <= n,
            owners.len() == i,
            forall|j: int|
                0 <= j < i ==> owners[j].0@ == owner_walk(s)[j] && owners[j].1@
                    == s.owners[owner_walk(s)[j]],
        decreases n - i,
    {
        owners.push((state.owner_key_at(i).clone(), state.owner_ids_at(i).clone()));
        i += 1;
    }

    let mut shares: Vec<(Identity, MessageIds)> = Vec::new();
    let n = state.share_count();
    let mut i: usize = 0;
    while i < n
        invariant
            state.wf(),
            s == state@,
            n == share_walk(s).len(),
            i <= n,
            shares.len() == i,
            forall|j: int|
                0 <= j < i ==> shares[j].0@ == share_walk(s)[j] && shares[j].1@
                    == s.shares[share_walk(s)[j]],
        decreases n - i,
    {
        shares.push((state.share_key_at(i).clone(), state.share_ids_at(i).clone()));
        i += 1;
    }

    let r = Snapshot {
        users,
        channels,
        messages,
        encrypted_messages,
        owners,
        shares,
        next_message_id: state.peek_message_id(),
        next_channel_id: state.peek_channel_id(),
        key_name: state.key_name().clone(),
    };
    proof {
        let v = r@;
        lemma_ascending_distinct::<Identity>(user_walk(s));
        lemma_ascending_distinct::<u64>(channel_walk(s));
        lemma_ascending_distinct::<u64>(message_walk(s));
        lemma_ascending_distinct::<u64>(encrypted_walk(s));
        lemma_ascending_distinct::<Identity>(owner_walk(s));
        lemma_ascending_distinct::<Identity>(share_walk(s));

        let user_keys = Seq::new(v.users.len(), |i: int| v.users[i].user_principal);
        assert forall|j: int| 0 <= j < user_walk(s).len() implies s.users.contains_key(
            #[trigger] user_walk(s)[j],
        ) && s.users[user_walk(s)[j]] == v.users[j] by {
            assert(user_walk(s).contains(user_walk(s)[j]));
        }
        assert(user_keys =~= user_walk(s));
        lemma_loaded_all(user_walk(s), v.users, s.users);

        let channel_keys = Seq::new(v.channels.len(), |i: int| v.channels[i].id);
        assert forall|j: int| 0 <= j < channel_walk(s).len() implies s.channels.contains_key(
            #[trigger] channel_walk(s)[j],
        ) && s.channels[channel_walk(s)[j]] == v.channels[j] by {
            assert(channel_walk(s).contains(channel_walk(s)[j]));
        }
        assert(channel_keys =~= channel_walk(s));
        lemma_loaded_all(channel_walk(s), v.channels, s.channels);

        let message_keys = Seq::new(v.messages.len(), |i: int| v.messages[i].id);
        assert forall|j: int| 0 <= j < message_walk(s).len() implies s.messages.contains_key(
            #[trigger] message_walk(s)[j],
        ) && s.messages[message_walk(s)[j]] == v.messages[j] by {
            assert(message_walk(s).contains(message_walk(s)[j]));
        }
        assert(message_keys =~= message_walk(s));
        lemma_loaded_all(message_walk(s), v.messages, s.messages);

        let sealed_keys = Seq::new(
            v.encrypted_messages.len(),
            |i: int| v.encrypted_messages[i].id,
        );
        assert forall|j: int|
            0 <= j < encrypted_walk(s).len() implies s.encrypted_messages.contains_key(
            #[trigger] encrypted_walk(s)[j],
        ) && s.encrypted_messages[encrypted_walk(s)[j]] == v.encrypted_messages[j] by {
            assert(encrypted_walk(s).contains(encrypted_walk(s)[j]));
        }
        assert(sealed_keys =~= encrypted_walk(s));
        lemma_loaded_all(encrypted_walk(s), v.encrypted_messages, s.encrypted_messages);

        let owner_keys = Seq::new(v.owners.len(), |i: int| v.owners[i].0);
        let owner_lists = Seq::new(v.owners.len(), |i: int| v.owners[i].1);
        assert forall|j: int| 0 <= j < owner_walk(s).len() implies s.owners.contains_key(
            #[trigger] owner_walk(s)[j],
        ) && s.owners[owner_walk(s)[j]] == owner_lists[j] by {
            assert(owner_walk(s).contains(owner_walk(s)[j]));
        }
        assert(owner_keys =~= owner_walk(s));
        lemma_loaded_all(owner_walk(s), owner_lists, s.owners);

        let share_keys = Seq::new(v.shares.len(), |i: int| v.shares[i].0);
        let share_lists = Seq::new(v.shares.len(), |i: int| v.shares[i].1);
        assert forall|j: int| 0 <= j < share_walk(s).len() implies s.shares.contains_key(
            #[trigger] share_walk(s)[j],
        ) && s.shares[share_walk(s)[j]] == share_lists[j] by {
            assert(share_walk(s).contains(share_walk(s)[j]));
        }
        assert(share_keys =~= share_walk(s));
        lemma_loaded_all(share_walk(s), share_lists, s.shares);
        assert(v.users =~= Seq::new(user_walk(s).len(), |i: int| s.users[user_walk(s)[i]]));
        assert(v.channels =~= Seq::new(
            channel_walk(s).len(),
            |i: int| s.channels[channel_walk(s)[i]],
        ));
        assert(v.messages =~= Seq::new(
            message_walk(s).len(),
            |i: int| s.messages[message_walk(s)[i]],
        ));
        assert(v.encrypted_messages =~= Seq::new(
            encrypted_walk(s).len(),
            |i: int| s.encrypted_messages[encrypted_walk(s)[i]],
        ));
        assert(v.owners =~= Seq::new(
            owner_walk(s).len(),
            |i: int| (owner_walk(s)[i], s.owners[owner_walk(s)[i]]),
        ));
        assert(v.shares =~= Seq::new(
            share_walk(s).len(),
            |i: int| (share_walk(s)[i], s.shares[share_walk(s)[i]]),
        ));
    }
    r
}

} // verus!
