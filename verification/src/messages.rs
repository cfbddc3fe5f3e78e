//! Plaintext messages: posting and paging.
//!
//! A page lists messages newest first. Messages of one timestamp come in
//! ascending order of their ids.

use crate::encrypted::MAX_CONTENT_CHARS;
use crate::identity::Identity;
use crate::model::{
    clone_attachments, holds_identity, option_view, result_view, Attachment, AttachmentView,
    Channel, ChannelView, ChatError, CreateMessageRequest, Message, MessageView, MessageWithAuthor,
    MessageWithAuthorView, PaginatedMessages, PaginatedMessagesView,
};
use crate::state::{message_walk, valid, ChatState, ChatView};
use crate::table::{is_listing, listing, Table, TableKey};
use crate::text::{acceptable_text, is_acceptable_text, trimmed, trimmed_copy};
use crate::users::{posted, record_post};
use vstd::prelude::*;
use vstd::string::StringExecFns;

verus! {

/// The most that the attachments of one message may weigh together, by the
/// sizes they declare.
pub const MAX_ATTACHMENT_BYTES: u64 = 10_000_000;

/// The size of a page where none is asked for.
pub const DEFAULT_PAGE: u64 = 50;

/// The largest page.
pub const MAX_PAGE: u64 = 100;

/// The sum of the sizes that the attachments declare.
pub open spec fn total_size(attachments: Seq<AttachmentView>) -> nat
    decreases attachments.len(),
{
    if attachments.len() == 0 {
        0
    } else {
        total_size(attachments.drop_last()) + attachments.last().size as nat
    }
}

/// The sizes of the first attachments sum to no more than those of all.
pub proof fn lemma_total_size_grows(attachments: Seq<AttachmentView>, n: int)
    requires
        0 <= n <= attachments.len(),
    ensures
        total_size(attachments.take(n)) <= total_size(attachments),
    decreases attachments.len() - n,
{
    if n == attachments.len() {
        assert(attachments.take(n) =~= attachments);
    } else {
        lemma_total_size_grows(attachments, n + 1);
        assert(attachments.take(n + 1).drop_last() =~= attachments.take(n));
    }
}

/// Whether the attachments weigh more together than is allowed.
pub fn attachments_too_large(attachments: &Vec<Attachment>) -> (r: bool)
    ensures
        r == (total_size(attachments.deep_view()) > MAX_ATTACHMENT_BYTES),
{
    let ghost all = attachments.deep_view();
    let mut sum: u64 = 0;
    let mut i: usize = 0;
    assert(all.take(0) =~= Seq::<AttachmentView>::empty());
    while i < attachments.len()
        invariant
            all == attachments.deep_view(),
            i <= attachments.len(),
            sum == total_size(all.take(i as int)),
            sum <= MAX_ATTACHMENT_BYTES,
        decreases attachments.len() - i,
    {
        let size = attachments[i].size;
        proof {
            assert(all.take(i + 1).drop_last() =~= all.take(i as int));
            assert(all.take(i + 1).last() == attachments[i as int]@);
            lemma_total_size_grows(all, i + 1);
        }
        if size > MAX_ATTACHMENT_BYTES - sum {
            return true;
        }
        sum = sum + size;
        i += 1;
    }
    assert(all.take(i as int) =~= all);
    false
}

/// `channels` after one message more is counted for channel `id` at time
/// `now`, if there is such a channel.
pub open spec fn counted(channels: Map<u64, ChannelView>, id: u64, now: u64) -> Map<
    u64,
    ChannelView,
> {
    if channels.contains_key(id) {
        channels.insert(
            id,
            ChannelView {
                message_count: (channels[id].message_count + 1) as u64,
                last_message_at: Some(now),
                ..channels[id]
            },
        )
    } else {
        channels
    }
}

/// Whether `caller` may post to the channel, if one is given: the channel is
/// there and the caller is a member.
pub open spec fn may_post_to(s: ChatView, caller: Seq<u8>, channel_id: Option<u64>) -> bool {
    match channel_id {
        Some(c) => s.channels.contains_key(c) && s.channels[c].members.contains(caller),
        None => true,
    }
}

/// What posting a message does: it refuses content that is blank or longer
/// than 2000 characters, then attachments that weigh more than ten million bytes
/// together, then a caller who is not registered or no member of the channel
/// given. Else the message is stored under the next id with its content
/// trimmed, and counted for the caller and for the channel.
pub open spec fn send_message_spec(
    s: ChatView,
    caller: Seq<u8>,
    now: u64,
    request: MessageRequestView,
) -> (ChatView, Result<MessageView, ChatError>) {
    if !acceptable_text(request.content, MAX_CONTENT_CHARS as nat) {
        (s, Err(ChatError::InvalidInput))
    } else if total_size(request.attachments) > MAX_ATTACHMENT_BYTES {
        (s, Err(ChatError::AttachmentTooLarge))
    } else if !s.users.contains_key(caller) {
        (s, Err(ChatError::NotAuthorized))
    } else if !may_post_to(s, caller, request.channel_id) {
        (s, Err(ChatError::NotAuthorized))
    } else {
        let id = s.next_message_id;
        let message = MessageView {
            id: id,
            author: caller,
            content: trimmed(request.content),
            timestamp: now,
            channel_id: request.channel_id,
            reply_to: request.reply_to,
            message_type: request.message_type,
            attachments: request.attachments,
        };
        (
            ChatView {
                messages: s.messages.insert(id, message),
                users: posted(s.users, caller, now),
                channels: match request.channel_id {
                    Some(c) => counted(s.channels, c, now),
                    None => s.channels,
                },
                next_message_id: (id + 1) as u64,
                ..s
            },
            Ok(message),
        )
    }
}

/// The view of a request to post a message.
pub struct MessageRequestView {
    pub content: Seq<char>,
    pub channel_id: Option<u64>,
    pub reply_to: Option<u64>,
    pub message_type: crate::model::MessageType,
    pub attachments: Seq<AttachmentView>,
}

impl View for CreateMessageRequest {
    type V = MessageRequestView;

    open spec fn view(&self) -> MessageRequestView {
        MessageRequestView {
            content: self.content@,
            channel_id: self.channel_id,
            reply_to: self.reply_to,
            message_type: self.message_type,
            attachments: self.attachments.deep_view(),
        }
    }
}

/// Counts one message more for channel `id`, posted at time `now`.
fn count_message(state: &mut ChatState, id: u64, now: u64)
    requires
        old(state).wf(),
        old(state)@.channels.contains_key(id) ==> old(state)@.channels[id].message_count < u64::MAX,
    ensures
        final(state).wf(),
        final(state)@ == (ChatView { channels: counted(old(state)@.channels, id, now), ..old(state)@ }),
{
    let bump = |channel: &Channel| -> (changed: Channel)
        requires
            channel.message_count != u64::MAX,
        ensures
            changed@ == (ChannelView {
                message_count: (channel.message_count + 1) as u64,
                last_message_at: Some(now),
                ..channel@
            }),
        {
            let mut changed = channel.clone();
            changed.message_count = changed.message_count + 1;
            changed.last_message_at = Some(now);
            changed
        };
    let _ = state.change_channel(id, bump);
}

/// Posts a message.
pub fn send_message(
    state: &mut ChatState,
    caller: &Identity,
    now: u64,
    request: CreateMessageRequest,
) -> (r: Result<Message, ChatError>)
    requires
        old(state).inv(),
        old(state)@.next_message_id < u64::MAX,
    ensures
        final(state).inv(),
        final(state)@ == send_message_spec(old(state)@, caller@, now, request@).0,
        result_view(r) == send_message_spec(old(state)@, caller@, now, request@).1,
{
    if !is_acceptable_text(request.content.as_str(), MAX_CONTENT_CHARS) {
        return Err(ChatError::InvalidInput);
    }
    if attachments_too_large(&request.attachments) {
        return Err(ChatError::AttachmentTooLarge);
    }
    if !state.has_user(caller) {
        return Err(ChatError::NotAuthorized);
    }
    match request.channel_id {
        Some(c) => {
            let is_member = match state.channel(c) {
                Some(channel) => holds_identity(&channel.members, caller),
                None => false,
            };
            if !is_member {
                return Err(ChatError::NotAuthorized);
            }
        },
        None => {},
    }
    let message_id = crate::state::next_message_id(state);
    let message = Message {
        id: message_id,
        author: caller.clone(),
        content: trimmed_copy(request.content.as_str()),
        timestamp: now,
        channel_id: request.channel_id,
        reply_to: request.reply_to,
        message_type: request.message_type,
        attachments: request.attachments,
    };
    let stored = message.clone();
    state.put_message(stored);
    record_post(state, caller, now);
    match request.channel_id {
        Some(c) => {
            count_message(state, c, now);
        },
        None => {},
    }
    proof {
        lemma_send_message_valid(old(state)@, caller@, now, request@);
    }
    Ok(message)
}

/// Posting a message keeps a valid state valid.
pub proof fn lemma_send_message_valid(
    s: ChatView,
    caller: Seq<u8>,
    now: u64,
    request: MessageRequestView,
)
    requires
        valid(s),
        s.next_message_id < u64::MAX,
    ensures
        valid(send_message_spec(s, caller, now, request).0),
{
    let after = send_message_spec(s, caller, now, request).0;
    if after != s {
        assert(after.users.dom() =~= s.users.dom());
        assert(after.channels.dom() =~= s.channels.dom());
        assert(after.messages.dom() =~= s.messages.dom().insert(s.next_message_id));
    }
}

/// The place of a message in a page: its time and its id.
#[derive(Clone, Copy, Debug, PartialEq, Eq, Structural)]
pub struct Stamp {
    pub timestamp: u64,
    pub id: u64,
}

impl View for Stamp {
    type V = Stamp;

    open spec fn view(&self) -> Stamp {
        *self
    }
}

/// Newest first; of two messages of one timestamp, the one with the lower id
/// comes first.
pub open spec fn newer(a: Stamp, b: Stamp) -> bool {
    a.timestamp > b.timestamp || (a.timestamp == b.timestamp && a.id < b.id)
}

impl TableKey for Stamp {
    open spec fn before(a: Stamp, b: Stamp) -> bool {
        newer(a, b)
    }

    proof fn lemma_before_irreflexive(a: Stamp) {
    }

    proof fn lemma_before_transitive(a: Stamp, b: Stamp, c: Stamp) {
    }

    proof fn lemma_before_total(a: Stamp, b: Stamp) {
    }

    fn same_key(&self, other: &Stamp) -> (r: bool) {
        self.timestamp == other.timestamp && self.id == other.id
    }

    fn sorts_before(&self, other: &Stamp) -> (r: bool) {
        self.timestamp > other.timestamp || (self.timestamp == other.timestamp && self.id
            < other.id)
    }

}

/// Whether message `id` is there and passes the filter: with a filter, only
/// the messages of that channel pass.
pub open spec fn selected(s: ChatView, filter: Option<u64>, id: u64) -> bool {
    s.messages.contains_key(id) && (filter is None || s.messages[id].channel_id == filter)
}

/// The stamps of the messages that pass the filter.
pub open spec fn stamps(s: ChatView, filter: Option<u64>) -> Set<Stamp> {
    Set::new(|st: Stamp| selected(s, filter, st.id) && s.messages[st.id].timestamp == st.timestamp)
}

/// The messages that pass the filter, newest first.
pub open spec fn timeline(s: ChatView, filter: Option<u64>) -> Seq<Stamp> {
    listing::<Stamp>(stamps(s, filter))
}

/// The name shown for an author who is not registered.
pub open spec fn unknown_user() -> Seq<char> {
    "Unknown User"@
}

/// The name shown for `author`.
pub open spec fn display_name(s: ChatView, author: Seq<u8>) -> Seq<char> {
    if s.users.contains_key(author) {
        s.users[author].username
    } else {
        unknown_user()
    }
}

/// A message together with the name shown for its author.
pub open spec fn with_author(s: ChatView, m: MessageView) -> MessageWithAuthorView {
    MessageWithAuthorView {
        id: m.id,
        author: m.author,
        author_username: display_name(s, m.author),
        content: m.content,
        timestamp: m.timestamp,
        reply_to: m.reply_to,
        message_type: m.message_type,
        attachments: m.attachments,
    }
}

/// The size of a page: fifty where none is asked for, and at most a hundred.
pub open spec fn page_size(limit: Option<u64>) -> u64 {
    match limit {
        Some(l) => if l < MAX_PAGE {
            l
        } else {
            MAX_PAGE
        },
        None => DEFAULT_PAGE,
    }
}

/// The place at which a page starts: at the start where none is asked for.
pub open spec fn page_start(offset: Option<u64>) -> u64 {
    match offset {
        Some(o) => o,
        None => 0,
    }
}

/// The smaller of two numbers.
pub open spec fn least(a: int, b: int) -> int {
    if a < b {
        a
    } else {
        b
    }
}

/// What a page of messages holds: of the messages that pass the filter,
/// newest first, those from the place `offset` on, at most as many as the
/// size of a page; how many pass the filter in all; and whether messages
/// follow after the page.
pub open spec fn get_messages_spec(
    s: ChatView,
    channel_id: Option<u64>,
    limit: Option<u64>,
    offset: Option<u64>,
) -> PaginatedMessagesView {
    let line = timeline(s, channel_id);
    let total = line.len() as int;
    let from = least(page_start(offset) as int, total);
    let to = least(page_start(offset) + page_size(limit), total);
    PaginatedMessagesView {
        messages: Seq::new(
            (to - from) as nat,
            |i: int| with_author(s, s.messages[line[from + i].id]),
        ),
        total_count: total as u64,
        has_more: page_start(offset) + page_size(limit) < total,
    }
}

/// The name shown for `author`.
pub(crate) fn display_name_of(state: &ChatState, author: &Identity) -> (r: String)
    requires
        state.wf(),
    ensures
        r@ == display_name(state@, author@),
{
    match state.user(author) {
        Some(user) => user.username.clone(),
        None => String::from_str("Unknown User"),
    }
}

/// `message` together with the name shown for its author.
fn attach_author(state: &ChatState, message: &Message) -> (r: MessageWithAuthor)
    requires
        state.wf(),
    ensures
        r@ == with_author(state@, message@),
{
    MessageWithAuthor {
        id: message.id,
        author: message.author.clone(),
        author_username: display_name_of(state, &message.author),
        content: message.content.clone(),
        timestamp: message.timestamp,
        reply_to: message.reply_to,
        message_type: message.message_type,
        attachments: clone_attachments(&message.attachments),
    }
}

/// The stamps of the messages that pass the filter, in a table that keeps
/// them newest first.
fn stamp_table(state: &ChatState, channel_id: Option<u64>) -> (r: Table<Stamp, ()>)
    requires
        state.inv(),
    ensures
        r.wf(),
        r@.dom() == stamps(state@, channel_id),
        r.keys() == timeline(state@, channel_id),
{
    let ghost walk = message_walk(state@);
    let mut order: Table<Stamp, ()> = Table::new();
    let n = state.message_count();
    let mut i: usize = 0;
    proof {
        state.lemma_walks();
    }
    while i < n
        invariant
            state.inv(),
            walk == message_walk(state@),
            is_listing::<u64>(walk, state@.messages.dom()),
            n == walk.len(),
            i <= n,
            order.wf(),
            forall|st: Stamp| #[trigger]
                order@.contains_key(st) <==> walk.take(i as int).contains(st.id) && stamps(
                    state@,
                    channel_id,
                ).contains(st),
        decreases n - i,
    {
        let message = state.message_at(i);
        let ghost id = walk[i as int];
        assert(message.id == id);
        assert forall|x: u64| walk.take(i + 1).contains(x) <==> walk.take(i as int).contains(x) || x
            == id by {
            let longer = walk.take(i + 1);
            let shorter = walk.take(i as int);
            assert(longer[i as int] == id);
            if shorter.contains(x) {
                let j = shorter.index_of(x);
                assert(longer[j] == x);
            }
            if longer.contains(x) {
                let j = longer.index_of(x);
                if j < i {
                    assert(shorter[j] == x);
                }
            }
        }
        let passes = match channel_id {
            Some(c) => match message.channel_id {
                Some(m) => m == c,
                None => false,
            },
            None => true,
        };
        if passes {
            order.insert(Stamp { timestamp: message.timestamp, id: message.id }, ());
        }
        i += 1;
    }
    proof {
        assert(walk.take(i as int) =~= walk);
        assert forall|st: Stamp| order@.contains_key(st) <==> stamps(state@, channel_id).contains(
            st,
        ) by {
            if stamps(state@, channel_id).contains(st) {
                assert(state@.messages.dom().contains(st.id));
                assert(walk.contains(st.id));
            }
        }
        assert(order@.dom() =~= stamps(state@, channel_id));
        order.lemma_walk();
    }
    order
}

/// A page of messages, newest first.
pub fn get_messages(
    state: &ChatState,
    channel_id: Option<u64>,
    limit: Option<u64>,
    offset: Option<u64>,
) -> (r: PaginatedMessages)
    requires
        state.inv(),
    ensures
        r@ == get_messages_spec(state@, channel_id, limit, offset),
{
    let size = match limit {
        Some(l) => if l < MAX_PAGE {
            l
        } else {
            MAX_PAGE
        },
        None => DEFAULT_PAGE,
    };
    let start = match offset {
        Some(o) => o,
        None => 0,
    };
    let order = stamp_table(state, channel_id);
    let ghost line = timeline(state@, channel_id);
    let count = order.len();
    let total = count as u64;
    let has_more = start < total && size < total - start;
    let from: usize = if start < total {
        start as usize
    } else {
        count
    };
    let to: usize = if start < total && size < total - start {
        (start + size) as usize
    } else {
        count
    };
    let mut messages: Vec<MessageWithAuthor> = Vec::new();
    let mut k: usize = from;
    proof {
        order.lemma_walk();
    }
    while k < to
        invariant
            state.inv(),
            order.wf(),
            order.keys() == line,
            order@.dom() == stamps(state@, channel_id),
            is_listing::<Stamp>(line, order@.dom()),
            from <= k <= to <= line.len(),
            messages.len() == k - from,
            forall|j: int|
                0 <= j < k - from ==> messages[j]@ == with_author(
                    state@,
                    state@.messages[line[from + j].id],
                ),
        decreases to - k,
    {
        let stamp = *order.key_at(k);
        assert(line.contains(line[k as int]));
        assert(stamps(state@, channel_id).contains(stamp));
        match state.message(stamp.id) {
            Some(message) => {
                messages.push(attach_author(state, message));
            },
            None => {},
        }
        k += 1;
    }
    let r = PaginatedMessages { messages, total_count: total, has_more };
    assert(r@.messages =~= get_messages_spec(state@, channel_id, limit, offset).messages);
    r
}

/// The message stored under `message_id`, with the name shown for its
/// author.
pub fn get_message(state: &ChatState, message_id: u64) -> (r: Option<MessageWithAuthor>)
    requires
        state.inv(),
    ensures
        option_view(r) == if state@.messages.contains_key(message_id) {
            Some(with_author(state@, state@.messages[message_id]))
        } else {
            None
        },
{
    match state.message(message_id) {
        Some(message) => Some(attach_author(state, message)),
        None => None,
    }
}

/// How many users, messages and channels there are, each under its name.
pub fn get_stats(state: &ChatState) -> (r: Vec<(String, u64)>)
    requires
        state.inv(),
    ensures
        r.len() == 3,
        r[0].0@ == "users"@ && r[0].1 == state@.users.dom().len(),
        r[1].0@ == "messages"@ && r[1].1 == state@.messages.dom().len(),
        r[2].0@ == "channels"@ && r[2].1 == state@.channels.dom().len(),
{
    let user_count = state.user_count() as u64;
    let message_count = state.message_count() as u64;
    let channel_count = state.channel_count() as u64;
    let mut r: Vec<(String, u64)> = Vec::new();
    r.push((String::from_str("users"), user_count));
    r.push((String::from_str("messages"), message_count));
    r.push((String::from_str("channels"), channel_count));
    r
}

} // verus!
