//! Reading encrypted messages: the lists a caller can see, the opening of
//! content, and the requests for key material.
//!
//! Nothing here hands out the plain content of a message to a caller who
//! may not read it, nor anything of a message that has expired.

use crate::access::{can_read, expired, may_read};
use crate::envelope::{
    base64_bytes, decrypt_message_content, fault_of_content, lemma_fault_where_opening_fails,
    opened, opening_fault, text_result,
};
use crate::identity::Identity;
use crate::messages::{display_name, Stamp};
use crate::model::{
    clone_attachments, holds_identity, ChatError, EncryptedMessage, EncryptedMessageView,
    MessageWithAuthor, MessageWithAuthorView,
};
use crate::state::{encrypted_walk, ChatState, ChatView};
use crate::table::{is_listing, listing, Table};
use crate::text::{decimal, decimal_string};
use vstd::prelude::*;
use vstd::string::StringExecFns;

verus! {

/// The encrypted messages with the ids `ids` that are there and have not
/// expired at time `now`, in the order of `ids`.
pub open spec fn live_among(s: ChatView, ids: Seq<u64>, now: u64) -> Seq<EncryptedMessageView>
    decreases ids.len(),
{
    if ids.len() == 0 {
        Seq::empty()
    } else if s.encrypted_messages.contains_key(ids.last()) && !expired(
        s.encrypted_messages[ids.last()],
        now,
    ) {
        live_among(s, ids.drop_last(), now).push(s.encrypted_messages[ids.last()])
    } else {
        live_among(s, ids.drop_last(), now)
    }
}

/// The list of `who` in `index`: empty where there is none.
pub open spec fn ids_of(index: Map<Seq<u8>, Seq<u64>>, who: Seq<u8>) -> Seq<u64> {
    if index.contains_key(who) {
        index[who]
    } else {
        Seq::empty()
    }
}

/// What a caller sees of its encrypted messages at time `now`: first those it
/// wrote, then those shared with it, each in the order of the index, without
/// those that have expired.
pub open spec fn get_encrypted_messages_spec(s: ChatView, caller: Seq<u8>, now: u64) -> Seq<
    EncryptedMessageView,
> {
    live_among(s, ids_of(s.owners, caller), now) + live_among(s, ids_of(s.shares, caller), now)
}

/// Puts the live messages among `ids` at the end of `out`.
fn collect_live(state: &ChatState, ids: &Vec<u64>, now: u64, out: &mut Vec<EncryptedMessage>)
    requires
        state.wf(),
    ensures
        final(out).deep_view() == old(out).deep_view() + live_among(state@, ids@, now),
{
    let ghost base = out.deep_view();
    let mut i: usize = 0;
    assert(ids@.take(0) =~= Seq::<u64>::empty());
    assert(out.deep_view() =~= base + live_among(state@, ids@.take(0), now));
    while i < ids.len()
        invariant
            state.wf(),
            i <= ids.len(),
            out.deep_view() == base + live_among(state@, ids@.take(i as int), now),
        decreases ids.len() - i,
    {
        assert(ids@.take(i + 1).drop_last() =~= ids@.take(i as int));
        assert(ids@.take(i + 1).last() == ids[i as int]);
        let ghost sofar = out.deep_view();
        match state.sealed_message(ids[i]) {
            Some(message) => {
                if !message.is_expired(now) {
                    out.push(message.clone());
                    assert(out.deep_view() =~= sofar.push(message@));
                    assert(out.deep_view() =~= base + live_among(
                        state@,
                        ids@.take(i + 1),
                        now,
                    ));
                }
            },
            None => {},
        }
        i += 1;
    }
    assert(ids@.take(i as int) =~= ids@);
}

/// The encrypted messages that the caller wrote and those shared with it,
/// without those that have expired.
pub fn get_encrypted_messages(state: &ChatState, caller: &Identity, now: u64) -> (r: Vec<
    EncryptedMessage,
>)
    requires
        state.inv(),
    ensures
        r.deep_view() == get_encrypted_messages_spec(state@, caller@, now),
{
    let mut r: Vec<EncryptedMessage> = Vec::new();
    assert(r.deep_view() =~= Seq::<EncryptedMessageView>::empty());
    match state.owned_ids(caller) {
        Some(ids) => {
            collect_live(state, &ids.ids, now, &mut r);
        },
        None => {
            assert(live_among(state@, Seq::<u64>::empty(), now) =~= Seq::empty());
        },
    }
    let ghost owned = r.deep_view();
    assert(owned =~= live_among(state@, ids_of(state@.owners, caller@), now));
    match state.shared_ids(caller) {
        Some(ids) => {
            collect_live(state, &ids.ids, now, &mut r);
        },
        None => {
            assert(owned + live_among(state@, Seq::<u64>::empty(), now) =~= owned);
        },
    }
    r
}

/// The encrypted messages with the ids `ids` that were posted to channel
/// `channel_id` and have not expired at time `now`, in the order of `ids`.
pub open spec fn channel_live(s: ChatView, ids: Seq<u64>, channel_id: u64, now: u64) -> Seq<
    EncryptedMessageView,
>
    decreases ids.len(),
{
    if ids.len() == 0 {
        Seq::empty()
    } else if s.encrypted_messages.contains_key(ids.last())
        && s.encrypted_messages[ids.last()].channel_id == Some(channel_id) && !expired(
        s.encrypted_messages[ids.last()],
        now,
    ) {
        channel_live(s, ids.drop_last(), channel_id, now).push(s.encrypted_messages[ids.last()])
    } else {
        channel_live(s, ids.drop_last(), channel_id, now)
    }
}

/// What anyone sees of the encrypted messages of a channel at time `now`:
/// nothing if the channel is not there or not encrypted; else its messages
/// that have not expired, sealed as they are kept, in ascending order of ids.
pub open spec fn get_encrypted_messages_from_channel_spec(s: ChatView, channel_id: u64, now: u64) -> Seq<
    EncryptedMessageView,
> {
    if s.channels.contains_key(channel_id) && s.channels[channel_id].is_encrypted {
        channel_live(s, encrypted_walk(s), channel_id, now)
    } else {
        Seq::empty()
    }
}

/// The sealed messages of an encrypted channel that have not expired.
pub fn get_encrypted_messages_from_channel(state: &ChatState, channel_id: u64, now: u64) -> (r: Vec<
    EncryptedMessage,
>)
    requires
        state.inv(),
    ensures
        r.deep_view() == get_encrypted_messages_from_channel_spec(state@, channel_id, now),
{
    let mut r: Vec<EncryptedMessage> = Vec::new();
    assert(r.deep_view() =~= Seq::<EncryptedMessageView>::empty());
    let is_encrypted = match state.channel(channel_id) {
        Some(channel) => channel.is_encrypted,
        None => false,
    };
    if !is_encrypted {
        return r;
    }
    let ghost walk = encrypted_walk(state@);
    let n = state.sealed_count();
    let mut i: usize = 0;
    assert(walk.take(0) =~= Seq::<u64>::empty());
    while i < n
        invariant
            state.inv(),
            walk == encrypted_walk(state@),
            n == walk.len(),
            i <= n,
            r.deep_view() == channel_live(state@, walk.take(i as int), channel_id, now),
        decreases n - i,
    {
        let message = state.sealed_at(i);
        assert(walk.take(i + 1).drop_last() =~= walk.take(i as int));
        assert(walk.take(i + 1).last() == walk[i as int]);
        let ghost sofar = r.deep_view();
        let in_channel = match message.channel_id {
            Some(c) => c == channel_id,
            None => false,
        };
        if in_channel && !message.is_expired(now) {
            r.push(message.clone());
            assert(r.deep_view() =~= sofar.push(message@));
        }
        i += 1;
    }
    assert(walk.take(i as int) =~= walk);
    r
}

/// What opening message `id` for `caller` at time `now` gives: it refuses a
/// message that is not there, then a caller who may not read it; else the
/// content is opened.
pub open spec fn decrypt_encrypted_message_spec(s: ChatView, caller: Seq<u8>, now: u64, id: u64) -> Result<
    Seq<char>,
    ChatError,
> {
    if !s.encrypted_messages.contains_key(id) {
        Err(ChatError::NotFound)
    } else if !may_read(s, id, caller, now) {
        Err(ChatError::NotAuthorized)
    } else {
        opened(
            base64_bytes(s.encrypted_messages[id].encrypted_content),
            s.encrypted_messages[id].encrypted_content,
            id,
        )
    }
}

/// Opens the content of an encrypted message for a caller who may read it.
pub fn decrypt_encrypted_message(state: &ChatState, caller: &Identity, now: u64, message_id: u64) -> (r:
    Result<String, ChatError>)
    requires
        state.inv(),
    ensures
        text_result(r) == decrypt_encrypted_message_spec(state@, caller@, now, message_id),
{
    match state.sealed_message(message_id) {
        Some(message) => {
            if !can_read(state, caller, now, message_id) {
                return Err(ChatError::NotAuthorized);
            }
            decrypt_message_content(message.encrypted_content.as_str(), message_id)
        },
        None => Err(ChatError::NotFound),
    }
}

/// Where the fault lies when message `id` does not open for `caller`, who
/// may read it: nothing where the message opens, and nothing for a caller
/// who may not read it.
pub open spec fn decrypt_fault_spec(s: ChatView, caller: Seq<u8>, now: u64, id: u64) -> Option<
    Seq<char>,
> {
    if may_read(s, id, caller, now) {
        opening_fault(base64_bytes(s.encrypted_messages[id].encrypted_content))
    } else {
        None
    }
}

/// Where the fault lies when a message does not open for a caller who may
/// read it. There is a fault to name exactly where
/// [`decrypt_encrypted_message`] refuses the content as invalid.
pub fn decrypt_fault(state: &ChatState, caller: &Identity, now: u64, message_id: u64) -> (r: Option<
    String,
>)
    requires
        state.inv(),
    ensures
        r.deep_view() == decrypt_fault_spec(state@, caller@, now, message_id),
        r is Some <==> decrypt_encrypted_message_spec(state@, caller@, now, message_id) == Err::<
            Seq<char>,
            ChatError,
        >(ChatError::InvalidInput),
{
    proof {
        if state@.encrypted_messages.contains_key(message_id) {
            lemma_fault_where_opening_fails(
                base64_bytes(state@.encrypted_messages[message_id].encrypted_content),
                state@.encrypted_messages[message_id].encrypted_content,
                message_id,
            );
        }
    }
    if !can_read(state, caller, now, message_id) {
        return None;
    }
    match state.sealed_message(message_id) {
        Some(message) => fault_of_content(message.encrypted_content.as_str()),
        None => None,
    }
}

/// What the content of message `m` opens to.
pub open spec fn content_of(m: EncryptedMessageView) -> Result<Seq<char>, ChatError> {
    opened(base64_bytes(m.encrypted_content), m.encrypted_content, m.id)
}

/// Whether message `id` is one that `caller` gets to read when it opens all
/// messages of channel `channel_id` at time `now`: it is of that channel, has
/// not expired, the caller is authorized, and its content opens.
pub open spec fn readable_in(s: ChatView, caller: Seq<u8>, now: u64, channel_id: u64, id: u64) -> bool {
    &&& s.encrypted_messages.contains_key(id)
    &&& s.encrypted_messages[id].channel_id == Some(channel_id)
    &&& may_read(s, id, caller, now)
    &&& content_of(s.encrypted_messages[id]) is Ok
}

/// The stamps of the messages that `caller` gets to read.
pub open spec fn readable_stamps(s: ChatView, caller: Seq<u8>, now: u64, channel_id: u64) -> Set<
    Stamp,
> {
    Set::new(
        |st: Stamp|
            readable_in(s, caller, now, channel_id, st.id)
                && s.encrypted_messages[st.id].timestamp == st.timestamp,
    )
}

/// An encrypted message with its content opened and the name shown for its
/// author.
pub open spec fn disclosed(s: ChatView, m: EncryptedMessageView) -> MessageWithAuthorView {
    MessageWithAuthorView {
        id: m.id,
        author: m.author,
        author_username: display_name(s, m.author),
        content: content_of(m)->Ok_0,
        timestamp: m.timestamp,
        reply_to: m.reply_to,
        message_type: m.message_type,
        attachments: m.attachments,
    }
}

/// What opening all messages of a channel gives: nothing unless the channel
/// is there, is encrypted and has the caller as a member; else the messages
/// that the caller gets to read, opened, newest first. A message whose
/// content does not open is left out.
pub open spec fn decrypt_all_messages_from_channel_spec(
    s: ChatView,
    caller: Seq<u8>,
    now: u64,
    channel_id: u64,
) -> Seq<MessageWithAuthorView> {
    if s.channels.contains_key(channel_id) && s.channels[channel_id].members.contains(caller)
        && s.channels[channel_id].is_encrypted {
        let line = listing::<Stamp>(readable_stamps(s, caller, now, channel_id));
        Seq::new(line.len(), |i: int| disclosed(s, s.encrypted_messages[line[i].id]))
    } else {
        Seq::empty()
    }
}

/// Opens all messages of an encrypted channel that the caller, a member,
/// may read.
pub fn decrypt_all_messages_from_channel(
    state: &ChatState,
    caller: &Identity,
    now: u64,
    channel_id: u64,
) -> (r: Vec<MessageWithAuthor>)
    requires
        state.inv(),
    ensures
        r.deep_view() == decrypt_all_messages_from_channel_spec(state@, caller@, now, channel_id),
{
    let mut r: Vec<MessageWithAuthor> = Vec::new();
    assert(r.deep_view() =~= Seq::<MessageWithAuthorView>::empty());
    let is_member = match state.channel(channel_id) {
        Some(channel) => holds_identity(&channel.members, caller) && channel.is_encrypted,
        None => false,
    };
    if !is_member {
        return r;
    }
    let ghost walk = encrypted_walk(state@);
    let ghost wanted = readable_stamps(state@, caller@, now, channel_id);
    let mut order: Table<Stamp, MessageWithAuthor> = Table::new();
    let n = state.sealed_count();
    let mut i: usize = 0;
    proof {
        state.lemma_walks();
    }
    while i < n
        invariant
            state.inv(),
            walk == encrypted_walk(state@),
            wanted == readable_stamps(state@, caller@, now, channel_id),
            is_listing::<u64>(walk, state@.encrypted_messages.dom()),
            n == walk.len(),
            i <= n,
            order.wf(),
            forall|st: Stamp| #[trigger]
                order@.contains_key(st) <==> walk.take(i as int).contains(st.id) && wanted.contains(
                    st,
                ),
            forall|st: Stamp| #[trigger]
                order@.contains_key(st) ==> order@[st] == disclosed(
                    state@,
                    state@.encrypted_messages[st.id],
                ),
        decreases n - i,
    {
        let message = state.sealed_at(i);
        let ghost id = walk[i as int];
        assert(message.id == id);
        assert forall|x: u64| walk.take(i + 1).contains(x) <==> walk.take(i as int).contains(x) || x
            == id by {
            let longer = walk.take(i + 1);
            let shorter = walk.take(i as int);
            assert(longer[i as int] == id);
            if shorter.contains(x) {
                let j = shorter.index_of(x);
                assert(longer[j] == x);
            }
            if longer.contains(x) {
                let j = longer.index_of(x);
                if j < i {
                    assert(shorter[j] == x);
                }
            }
        }
        let in_channel = match message.channel_id {
            Some(c) => c == channel_id,
            None => false,
        };
        if in_channel && can_read(state, caller, now, message.id) {
            match decrypt_message_content(message.encrypted_content.as_str(), message.id) {
                Ok(content) => {
                    let opened_message = MessageWithAuthor {
                        id: message.id,
                        author: message.author.clone(),
                        author_username: crate::messages::display_name_of(state, &message.author),
                        content,
                        timestamp: message.timestamp,
                        reply_to: message.reply_to,
                        message_type: message.message_type,
                        attachments: clone_attachments(&message.attachments),
                    };
                    order.insert(
                        Stamp { timestamp: message.timestamp, id: message.id },
                        opened_message,
                    );
                },
                Err(_) => {},
            }
        }
        i += 1;
    }
    proof {
        assert(walk.take(i as int) =~= walk);
        assert forall|st: Stamp| order@.contains_key(st) <==> wanted.contains(st) by {
            if wanted.contains(st) {
                assert(state@.encrypted_messages.dom().contains(st.id));
                assert(walk.contains(st.id));
            }
        }
        assert(order@.dom() =~= wanted);
        order.lemma_walk();
    }
    let ghost line = listing::<Stamp>(wanted);
    let count = order.len();
    let mut k: usize = 0;
    while k < count
        invariant
            order.wf(),
            order.keys() == line,
            is_listing::<Stamp>(line, order@.dom()),
            count == line.len(),
            k <= count,
            r.len() == k,
            forall|st: Stamp| #[trigger]
                order@.contains_key(st) ==> order@[st] == disclosed(
                    state@,
                    state@.encrypted_messages[st.id],
                ),
            forall|j: int|
                0 <= j < k ==> r[j]@ == disclosed(state@, state@.encrypted_messages[line[j].id]),
        decreases count - k,
    {
        assert(line.contains(line[k as int]));
        r.push(order.value_at(k).clone());
        k += 1;
    }
    assert(r.deep_view() =~= decrypt_all_messages_from_channel_spec(
        state@,
        caller@,
        now,
        channel_id,
    ));
    r
}

/// What is asked of the key service to derive the key of one message.
#[derive(Debug, PartialEq, Eq)]
pub struct KeyDerivationRequest {
    /// The context of the derivation: it names the message.
    pub context: Vec<u8>,
    /// The input of the derivation: empty.
    pub input: Vec<u8>,
    /// The name of the key from which the service derives.
    pub key_name: String,
    /// The key under which the service is to encrypt its answer: empty.
    pub transport_public_key: Vec<u8>,
}

/// What is asked of the key service to learn the public key against which
/// derived keys are verified.
#[derive(Debug, PartialEq, Eq)]
pub struct PublicKeyRequest {
    /// The context of the derivation: empty.
    pub context: Vec<u8>,
    /// The name of the key from which the service derives.
    pub key_name: String,
}

/// The context under which the key of message `id` is derived: the bytes of
/// the text `message_` followed by the id in decimal.
pub open spec fn derivation_context(id: u64) -> Seq<u8> {
    vstd::utf8::encode_utf8("message_"@ + decimal(id as nat))
}

/// The request for the public key against which derived keys are verified.
pub fn symmetric_key_verification_key_for_encrypted_message(state: &ChatState) -> (r:
    PublicKeyRequest)
    ensures
        r.context@ == Seq::<u8>::empty(),
        r.key_name@ == state@.key_name,
{
    PublicKeyRequest { context: Vec::new(), key_name: state.key_name().clone() }
}

/// The request for the key of message `message_id`, for a caller who may
/// read the message; every other caller is refused as not authorized.
pub fn encrypted_symmetric_key_for_message(
    state: &ChatState,
    caller: &Identity,
    now: u64,
    message_id: u64,
) -> (r: Result<KeyDerivationRequest, ChatError>)
    requires
        state.inv(),
    ensures
        match r {
            Ok(request) => {
                &&& may_read(state@, message_id, caller@, now)
                &&& request.context@ == derivation_context(message_id)
                &&& request.input@ == Seq::<u8>::empty()
                &&& request.key_name@ == state@.key_name
                &&& request.transport_public_key@ == Seq::<u8>::empty()
            },
            Err(e) => e == ChatError::NotAuthorized && !may_read(state@, message_id, caller@, now),
        },
{
    if !can_read(state, caller, now, message_id) {
        return Err(ChatError::NotAuthorized);
    }
    let mut context = String::from_str("message_");
    let digits = decimal_string(message_id);
    context.append(digits.as_str());
    Ok(
        KeyDerivationRequest {
            context: context.as_str().as_bytes_vec(),
            input: Vec::new(),
            key_name: state.key_name().clone(),
            transport_public_key: Vec::new(),
        },
    )
}

} // verus!
