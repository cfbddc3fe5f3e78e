//! Encrypted messages: creation, sharing, deletion and reading.
//!
//! Besides the table of messages there are two indices, from an identity to
//! the ids of the messages it wrote and to the ids of the messages shared
//! with it. Whatever removes a message strips its id from every index list
//! that names it, and drops a list that becomes empty.

use crate::access::expired;
use crate::envelope::{base64_bytes, encrypt_message_content, opened, sealed};
use crate::identity::Identity;
use crate::reading::decrypt_encrypted_message_spec;
use crate::model::{
    clone_identities, holds_identity, Attachment, AttachmentView, ChatError,
    EncryptedMessage, EncryptedMessageView, MessageIds, MessageType,
};
use crate::state::{
    encrypted_valid, encrypted_walk, names, owners_valid, shares_valid, valid, ChatState, ChatView, EXPIRY_NS,
    MAX_SHARES,
};
use crate::table::lemma_pushed;
use crate::text::{acceptable_text, is_acceptable_text, lemma_utf8_len_bound};
use crate::users::{posted, record_post};
use vstd::prelude::*;

verus! {

/// The most characters that the content of a message may have as it is
/// given.
pub const MAX_CONTENT_CHARS: usize = 2000;

/// `ids` without `id`, the rest in its order.
pub open spec fn without(ids: Seq<u64>, id: u64) -> Seq<u64>
    decreases ids.len(),
{
    if ids.len() == 0 {
        ids
    } else if ids.last() == id {
        without(ids.drop_last(), id)
    } else {
        without(ids.drop_last(), id).push(ids.last())
    }
}

/// `index` after `id` is stripped from the list of `who`: the list is
/// dropped if nothing is left of it.
pub open spec fn stripped(index: Map<Seq<u8>, Seq<u64>>, who: Seq<u8>, id: u64) -> Map<
    Seq<u8>,
    Seq<u64>,
> {
    if index.contains_key(who) {
        if without(index[who], id).len() > 0 {
            index.insert(who, without(index[who], id))
        } else {
            index.remove(who)
        }
    } else {
        index
    }
}

/// `index` after `id` is stripped from the list of each of `whom`, in turn.
pub open spec fn stripped_for_all(index: Map<Seq<u8>, Seq<u64>>, whom: Seq<Seq<u8>>, id: u64) -> Map<
    Seq<u8>,
    Seq<u64>,
>
    decreases whom.len(),
{
    if whom.len() == 0 {
        index
    } else {
        stripped_for_all(stripped(index, whom.first(), id), whom.drop_first(), id)
    }
}

/// `index` after `id` is added to the list of `who`, if it is not in it.
pub open spec fn listed(index: Map<Seq<u8>, Seq<u64>>, who: Seq<u8>, id: u64) -> Map<
    Seq<u8>,
    Seq<u64>,
> {
    if index.contains_key(who) {
        if index[who].contains(id) {
            index
        } else {
            index.insert(who, index[who].push(id))
        }
    } else {
        index.insert(who, seq![id])
    }
}

/// What `without` keeps: all of `ids` but `id`, and nothing twice that was
/// not there twice.
pub proof fn lemma_without(ids: Seq<u64>, id: u64)
    ensures
        forall|x: u64| #[trigger] without(ids, id).contains(x) <==> ids.contains(x) && x != id,
        ids.no_duplicates() ==> without(ids, id).no_duplicates(),
        !ids.contains(id) ==> without(ids, id) == ids,
    decreases ids.len(),
{
    if ids.len() > 0 {
        let front = ids.drop_last();
        let last = ids.last();
        let w = without(front, id);
        let r = without(ids, id);
        lemma_without(front, id);
        assert(ids =~= front.push(last));
        assert forall|x: u64| ids.contains(x) <==> front.contains(x) || x == last by {
            lemma_pushed(front, last, x);
        }
        assert forall|x: u64| #[trigger] r.contains(x) <==> ids.contains(x) && x != id by {
            assert(w.contains(x) <==> front.contains(x) && x != id);
            if last != id {
                lemma_pushed(w, last, x);
            }
        }
        if ids.no_duplicates() {
            assert(front.no_duplicates());
            assert(!front.contains(last)) by {
                if front.contains(last) {
                    let i = front.index_of(last);
                    assert(ids[i] == ids[ids.len() - 1]);
                }
            }
            if last != id {
                assert(!w.contains(last));
                assert(w.push(last).no_duplicates());
            }
        }
        if !ids.contains(id) {
            assert(!front.contains(id));
            assert(r =~= ids);
        }
    }
}

/// Every list of the index holds something and nothing twice.
pub open spec fn lists_in_order(index: Map<Seq<u8>, Seq<u64>>) -> bool {
    forall|who: Seq<u8>| #[trigger]
        index.contains_key(who) ==> index[who].len() > 0 && index[who].no_duplicates()
}

/// What stripping does to an index: the id leaves the list of `who`, and
/// nothing else changes.
pub proof fn lemma_stripped(index: Map<Seq<u8>, Seq<u64>>, who: Seq<u8>, id: u64)
    ensures
        forall|w: Seq<u8>, x: u64|
            #![trigger names(stripped(index, who, id), w, x)]
            #![trigger names(index, w, x)]
            names(stripped(index, who, id), w, x) <==> names(index, w, x) && !(w == who && x
                == id),
        lists_in_order(index) ==> lists_in_order(stripped(index, who, id)),
{
    let after = stripped(index, who, id);
    if index.contains_key(who) {
        lemma_without(index[who], id);
        let kept = without(index[who], id);
        if kept.len() == 0 {
            assert forall|x: u64| !kept.contains(x) by {
                if kept.contains(x) {
                    let i = kept.index_of(x);
                }
            }
        } else {
            assert(after[who] == kept);
        }
    }
    assert forall|w: Seq<u8>, x: u64|
        #![trigger names(after, w, x)]
        #![trigger names(index, w, x)]
        names(after, w, x) <==> names(index, w, x) && !(w == who && x == id) by {
        if w != who {
            assert(after.contains_key(w) == index.contains_key(w));
            if index.contains_key(w) {
                assert(after[w] == index[w]);
            }
        } else if index.contains_key(who) {
            let kept = without(index[who], id);
            assert(kept.contains(x) <==> index[who].contains(x) && x != id);
        }
    }
}

/// What stripping for several identities does to an index: the id leaves
/// the list of each, and nothing else changes.
pub proof fn lemma_stripped_for_all(index: Map<Seq<u8>, Seq<u64>>, whom: Seq<Seq<u8>>, id: u64)
    ensures
        forall|w: Seq<u8>, x: u64|
            #![trigger names(stripped_for_all(index, whom, id), w, x)]
            #![trigger names(index, w, x)]
            names(stripped_for_all(index, whom, id), w, x) <==> names(index, w, x) && !(
            whom.contains(w) && x == id),
        lists_in_order(index) ==> lists_in_order(stripped_for_all(index, whom, id)),
    decreases whom.len(),
{
    if whom.len() > 0 {
        let first = whom.first();
        let rest = whom.drop_first();
        let step = stripped(index, first, id);
        lemma_stripped(index, first, id);
        lemma_stripped_for_all(step, rest, id);
        let after = stripped_for_all(index, whom, id);
        assert(after == stripped_for_all(step, rest, id));
        assert forall|w: Seq<u8>, x: u64|
            #![trigger names(after, w, x)]
            #![trigger names(index, w, x)]
            names(after, w, x) <==> names(index, w, x) && !(whom.contains(w) && x == id) by {
            assert(whom[0] == first);
            if rest.contains(w) {
                let i = rest.index_of(w);
                assert(whom[i + 1] == w);
            }
            if whom.contains(w) && w != first {
                let i = whom.index_of(w);
                assert(rest[i - 1] == w);
            }
            assert(names(after, w, x) <==> names(step, w, x) && !(rest.contains(w) && x == id));
            assert(names(step, w, x) <==> names(index, w, x) && !(w == first && x == id));
        }
    }
}

/// The state after the encrypted message `id` and every trace of it in the
/// indices are removed.
pub open spec fn removed(s: ChatView, id: u64) -> ChatView {
    let m = s.encrypted_messages[id];
    ChatView {
        owners: stripped(s.owners, m.author, id),
        shares: stripped_for_all(s.shares, m.shared_with, id),
        encrypted_messages: s.encrypted_messages.remove(id),
        ..s
    }
}

/// Removing an encrypted message keeps a valid state valid: afterwards no
/// index list names the message.
pub proof fn lemma_removed_valid(s: ChatView, id: u64)
    requires
        valid(s),
        s.encrypted_messages.contains_key(id),
    ensures
        valid(removed(s, id)),
        forall|who: Seq<u8>| #[trigger]
            removed(s, id).owners.contains_key(who) ==> !removed(s, id).owners[who].contains(id),
        forall|who: Seq<u8>| #[trigger]
            removed(s, id).shares.contains_key(who) ==> !removed(s, id).shares[who].contains(id),
{
    let m = s.encrypted_messages[id];
    let after = removed(s, id);
    lemma_stripped(s.owners, m.author, id);
    lemma_stripped_for_all(s.shares, m.shared_with, id);
    assert(lists_in_order(s.owners));
    assert(lists_in_order(s.shares));
    assert(owners_valid(after)) by {
        assert forall|who: Seq<u8>, x: u64| #[trigger] names(after.owners, who, x) implies after.encrypted_messages.contains_key(
            x,
        ) && after.encrypted_messages[x].author == who by {
            assert(names(s.owners, who, x));
        }
        assert forall|x: u64| #[trigger] after.encrypted_messages.contains_key(x) implies names(
            after.owners,
            after.encrypted_messages[x].author,
            x,
        ) by {
            assert(s.encrypted_messages.contains_key(x));
            assert(names(s.owners, s.encrypted_messages[x].author, x));
        }
    }
    assert(shares_valid(after)) by {
        assert forall|who: Seq<u8>, x: u64| #[trigger] names(after.shares, who, x) implies after.encrypted_messages.contains_key(
            x,
        ) && after.encrypted_messages[x].shared_with.contains(who) by {
            assert(names(s.shares, who, x));
        }
        assert forall|who: Seq<u8>, x: u64|
            after.encrypted_messages.contains_key(x)
                && #[trigger] after.encrypted_messages[x].shared_with.contains(
                who,
            ) implies names(after.shares, who, x) by {
            assert(s.encrypted_messages.contains_key(x));
            assert(names(s.shares, who, x));
        }
    }
    assert(after.encrypted_messages.dom() =~= s.encrypted_messages.dom().remove(id));
    assert forall|who: Seq<u8>| #[trigger] after.owners.contains_key(who) implies !after.owners[who].contains(
        id,
    ) by {
        if after.owners[who].contains(id) {
            assert(names(after.owners, who, id));
        }
    }
    assert forall|who: Seq<u8>| #[trigger] after.shares.contains_key(who) implies !after.shares[who].contains(
        id,
    ) by {
        if after.shares[who].contains(id) {
            assert(names(after.shares, who, id));
        }
    }
}

/// `index` after `id` is put at the end of the list of `who`.
pub open spec fn with_owned(index: Map<Seq<u8>, Seq<u64>>, who: Seq<u8>, id: u64) -> Map<
    Seq<u8>,
    Seq<u64>,
> {
    if index.contains_key(who) {
        index.insert(who, index[who].push(id))
    } else {
        index.insert(who, seq![id])
    }
}

/// Whether `caller` may post an encrypted message with this plain content
/// to this channel: the content is not blank and has at most 2000 characters,
/// the caller is registered, and the channel, if one is given, has the
/// caller as a member and is encrypted.
pub open spec fn admission(
    s: ChatView,
    caller: Seq<u8>,
    plain: Seq<char>,
    channel_id: Option<u64>,
) -> Result<(), ChatError> {
    if !acceptable_text(plain, MAX_CONTENT_CHARS as nat) {
        Err(ChatError::InvalidInput)
    } else if !s.users.contains_key(caller) {
        Err(ChatError::NotAuthorized)
    } else {
        match channel_id {
            Some(c) => if !(s.channels.contains_key(c) && s.channels[c].members.contains(caller)) {
                Err(ChatError::NotAuthorized)
            } else if !s.channels[c].is_encrypted {
                Err(ChatError::InvalidInput)
            } else {
                Ok(())
            },
            None => Ok(()),
        }
    }
}

/// The state after `caller` has posted an encrypted message with the sealed
/// content `content`: the message gets the next id and expires a day after
/// `now`, its id is put at the end of the caller's list in the owner index,
/// and the caller has posted one message more.
pub open spec fn stored(
    s: ChatView,
    caller: Seq<u8>,
    now: u64,
    content: Seq<char>,
    channel_id: Option<u64>,
    reply_to: Option<u64>,
    message_type: MessageType,
    attachments: Seq<AttachmentView>,
) -> ChatView {
    let id = s.next_message_id;
    ChatView {
        encrypted_messages: s.encrypted_messages.insert(
            id,
            EncryptedMessageView {
                id: id,
                encrypted_content: content,
                author: caller,
                timestamp: now,
                expires_at: (now + EXPIRY_NS) as u64,
                channel_id: channel_id,
                reply_to: reply_to,
                message_type: message_type,
                shared_with: Seq::empty(),
                attachments: attachments,
            },
        ),
        owners: with_owned(s.owners, caller, id),
        users: posted(s.users, caller, now),
        next_message_id: (id + 1) as u64,
        ..s
    }
}

/// What posting an encrypted message does, `content` being the sealed
/// content: it is refused where [`admission`] refuses it; else the message is
/// stored and its id handed back.
pub open spec fn create_encrypted_message_sealed_spec(
    s: ChatView,
    caller: Seq<u8>,
    now: u64,
    plain: Seq<char>,
    content: Seq<char>,
    channel_id: Option<u64>,
    reply_to: Option<u64>,
    message_type: MessageType,
    attachments: Seq<AttachmentView>,
) -> (ChatView, Result<u64, ChatError>) {
    match admission(s, caller, plain, channel_id) {
        Err(e) => (s, Err(e)),
        Ok(_) => (
            stored(s, caller, now, content, channel_id, reply_to, message_type, attachments),
            Ok(s.next_message_id),
        ),
    }
}

/// What posting an encrypted message does: the plain content is sealed
/// under the id that the message will get.
pub open spec fn create_encrypted_message_spec(
    s: ChatView,
    caller: Seq<u8>,
    now: u64,
    plain: Seq<char>,
    channel_id: Option<u64>,
    reply_to: Option<u64>,
    message_type: MessageType,
    attachments: Seq<AttachmentView>,
) -> (ChatView, Result<u64, ChatError>) {
    create_encrypted_message_sealed_spec(
        s,
        caller,
        now,
        plain,
        sealed(plain, s.next_message_id),
        channel_id,
        reply_to,
        message_type,
        attachments,
    )
}

/// Whether `id` is in `ids`.
pub fn holds_id(ids: &Vec<u64>, id: u64) -> (r: bool)
    ensures
        r == ids@.contains(id),
{
    let mut i: usize = 0;
    while i < ids.len()
        invariant
            i <= ids.len(),
            forall|j: int| 0 <= j < i ==> ids@[j] != id,
        decreases ids.len() - i,
    {
        if ids[i] == id {
            return true;
        }
        i += 1;
    }
    false
}

/// Tests [`admission`].
pub fn check_admission(
    state: &ChatState,
    caller: &Identity,
    plain_content: &str,
    channel_id: Option<u64>,
) -> (r: Result<(), ChatError>)
    requires
        state.inv(),
    ensures
        r == admission(state@, caller@, plain_content@, channel_id),
{
    if !is_acceptable_text(plain_content, MAX_CONTENT_CHARS) {
        return Err(ChatError::InvalidInput);
    }
    if !state.has_user(caller) {
        return Err(ChatError::NotAuthorized);
    }
    match channel_id {
        Some(c) => {
            match state.channel(c) {
                Some(channel) => {
                    if !holds_identity(&channel.members, caller) {
                        Err(ChatError::NotAuthorized)
                    } else if !channel.is_encrypted {
                        Err(ChatError::InvalidInput)
                    } else {
                        Ok(())
                    }
                },
                None => Err(ChatError::NotAuthorized),
            }
        },
        None => Ok(()),
    }
}

/// Puts `id` at the end of the list of `who` in the owner index.
fn add_owned(state: &mut ChatState, who: &Identity, id: u64)
    requires
        old(state).wf(),
    ensures
        final(state).wf(),
        final(state)@ == (ChatView {
            owners: with_owned(old(state)@.owners, who@, id),
            ..old(state)@
        }),
{
    let mut ids = match state.owned_ids(who) {
        Some(ids) => ids.clone(),
        None => MessageIds { ids: Vec::new() },
    };
    ids.ids.push(id);
    assert(!old(state)@.owners.contains_key(who@) ==> ids@ =~= seq![id]);
    state.put_owned_ids(who, ids);
}

/// Posts an encrypted message whose content has been sealed already.
/// `encrypted_content` is what is stored; `plain_content` is only tested.
pub fn create_encrypted_message_sealed(
    state: &mut ChatState,
    caller: &Identity,
    now: u64,
    plain_content: &str,
    encrypted_content: String,
    channel_id: Option<u64>,
    reply_to: Option<u64>,
    message_type: MessageType,
    attachments: Vec<Attachment>,
) -> (r: Result<u64, ChatError>)
    requires
        old(state).inv(),
        old(state)@.next_message_id < u64::MAX,
        now + EXPIRY_NS <= u64::MAX,
    ensures
        final(state).inv(),
        final(state)@ == create_encrypted_message_sealed_spec(
            old(state)@,
            caller@,
            now,
            plain_content@,
            encrypted_content@,
            channel_id,
            reply_to,
            message_type,
            attachments.deep_view(),
        ).0,
        r == create_encrypted_message_sealed_spec(
            old(state)@,
            caller@,
            now,
            plain_content@,
            encrypted_content@,
            channel_id,
            reply_to,
            message_type,
            attachments.deep_view(),
        ).1,
{
    match check_admission(state, caller, plain_content, channel_id) {
        Err(e) => {
            return Err(e);
        },
        Ok(_) => {},
    }
    let message_id = crate::state::next_message_id(state);
    let message = EncryptedMessage {
        id: message_id,
        encrypted_content,
        author: caller.clone(),
        timestamp: now,
        expires_at: now + EXPIRY_NS,
        channel_id,
        reply_to,
        message_type,
        shared_with: Vec::new(),
        attachments,
    };
    assert(message@.shared_with =~= Seq::empty());
    state.put_sealed_message(message);
    add_owned(state, caller, message_id);
    record_post(state, caller, now);
    proof {
        lemma_stored_valid(
            old(state)@,
            caller@,
            now,
            encrypted_content@,
            channel_id,
            reply_to,
            message_type,
            attachments.deep_view(),
        );
    }
    Ok(message_id)
}

/// Storing an encrypted message keeps a valid state valid.
pub proof fn lemma_stored_valid(
    s: ChatView,
    caller: Seq<u8>,
    now: u64,
    content: Seq<char>,
    channel_id: Option<u64>,
    reply_to: Option<u64>,
    message_type: MessageType,
    attachments: Seq<AttachmentView>,
)
    requires
        valid(s),
        s.next_message_id < u64::MAX,
        now + EXPIRY_NS <= u64::MAX,
    ensures
        valid(stored(s, caller, now, content, channel_id, reply_to, message_type, attachments)),
{
    let id = s.next_message_id;
    let after = stored(s, caller, now, content, channel_id, reply_to, message_type, attachments);
    assert(after.users.dom() =~= s.users.dom());
    assert(after.encrypted_messages.dom() =~= s.encrypted_messages.dom().insert(id));
    assert(!s.encrypted_messages.contains_key(id));
    assert forall|who: Seq<u8>| !names(s.owners, who, id) by {
        if names(s.owners, who, id) {
            assert(s.encrypted_messages.contains_key(id));
        }
    }
    assert forall|who: Seq<u8>| !names(s.shares, who, id) by {
        if names(s.shares, who, id) {
            assert(s.encrypted_messages.contains_key(id));
        }
    }
    let list = after.owners[caller];
    if s.owners.contains_key(caller) {
        let before = s.owners[caller];
        assert(!names(s.owners, caller, id));
        assert(list == before.push(id));
        assert(list.no_duplicates());
        assert forall|x: u64| list.contains(x) <==> before.contains(x) || x == id by {
            lemma_pushed(before, id, x);
        }
    } else {
        assert(list == seq![id]);
        assert(list[0] == id);
    }
    assert(list.contains(id)) by {
        assert(list[list.len() - 1] == id);
    }
    assert(owners_valid(after)) by {
        assert forall|who: Seq<u8>, x: u64| #[trigger] names(after.owners, who, x) implies after.encrypted_messages.contains_key(
            x,
        ) && after.encrypted_messages[x].author == who by {
            if who == caller {
                if x != id {
                    assert(names(s.owners, who, x));
                }
            } else {
                assert(names(s.owners, who, x));
            }
        }
        assert forall|x: u64| #[trigger] after.encrypted_messages.contains_key(x) implies names(
            after.owners,
            after.encrypted_messages[x].author,
            x,
        ) by {
            if x != id {
                assert(s.encrypted_messages.contains_key(x));
                assert(names(s.owners, s.encrypted_messages[x].author, x));
            }
        }
    }
    assert(shares_valid(after)) by {
        assert forall|who: Seq<u8>, x: u64| #[trigger] names(after.shares, who, x) implies after.encrypted_messages.contains_key(
            x,
        ) && after.encrypted_messages[x].shared_with.contains(who) by {
            assert(names(s.shares, who, x));
        }
        assert forall|who: Seq<u8>, x: u64|
            after.encrypted_messages.contains_key(x)
                && #[trigger] after.encrypted_messages[x].shared_with.contains(
                who,
            ) implies names(after.shares, who, x) by {
            if x != id {
                assert(s.encrypted_messages.contains_key(x));
                assert(names(s.shares, who, x));
            }
        }
    }
}

/// Posts an encrypted message: the plain content is sealed and stored, and
/// the id of the message handed back. What is stored opens to the plain
/// content again: the author, asking at once, gets it back.
pub fn create_encrypted_message(
    state: &mut ChatState,
    caller: &Identity,
    now: u64,
    plain_content: String,
    channel_id: Option<u64>,
    reply_to: Option<u64>,
    message_type: MessageType,
    attachments: Vec<Attachment>,
) -> (r: Result<u64, ChatError>)
    requires
        old(state).inv(),
        old(state)@.next_message_id < u64::MAX,
        now + EXPIRY_NS <= u64::MAX,
    ensures
        final(state).inv(),
        final(state)@ == create_encrypted_message_spec(
            old(state)@,
            caller@,
            now,
            plain_content@,
            channel_id,
            reply_to,
            message_type,
            attachments.deep_view(),
        ).0,
        r == create_encrypted_message_spec(
            old(state)@,
            caller@,
            now,
            plain_content@,
            channel_id,
            reply_to,
            message_type,
            attachments.deep_view(),
        ).1,
        r matches Ok(id) ==> {
            &&& id == old(state)@.next_message_id
            &&& final(state)@.encrypted_messages.contains_key(id)
            &&& final(state)@.encrypted_messages[id].encrypted_content == sealed(plain_content@, id)
            &&& opened(
                base64_bytes(sealed(plain_content@, id)),
                sealed(plain_content@, id),
                id,
            ) == Ok::<Seq<char>, ChatError>(plain_content@)
            &&& decrypt_encrypted_message_spec(final(state)@, caller@, now, id) == Ok::<
                Seq<char>,
                ChatError,
            >(plain_content@)
        },
{
    if !is_acceptable_text(plain_content.as_str(), MAX_CONTENT_CHARS) {
        return Err(ChatError::InvalidInput);
    }
    proof {
        lemma_utf8_len_bound(plain_content@);
    }
    let content = encrypt_message_content(plain_content.as_str(), state.peek_message_id());
    create_encrypted_message_sealed(
        state,
        caller,
        now,
        plain_content.as_str(),
        content,
        channel_id,
        reply_to,
        message_type,
        attachments,
    )
}

/// What sharing an encrypted message does: it refuses a message that is not
/// there, a caller who did not write it, and a message that is shared with
/// fifty identities already. Sharing with the author changes nothing, since
/// the author is never among those a message is shared with. Else `user` is
/// added to those the message is shared with, and the message to the list of
/// `user` in the share index, each unless it is there already.
pub open spec fn share_encrypted_message_spec(s: ChatView, caller: Seq<u8>, id: u64, user: Seq<u8>) -> (
    ChatView,
    Result<(), ChatError>,
) {
    if !s.encrypted_messages.contains_key(id) {
        (s, Err(ChatError::NotFound))
    } else {
        let m = s.encrypted_messages[id];
        if m.author != caller {
            (s, Err(ChatError::NotAuthorized))
        } else if m.shared_with.len() >= MAX_SHARES {
            (s, Err(ChatError::InvalidInput))
        } else if user == m.author {
            (s, Ok(()))
        } else {
            (
                ChatView {
                    encrypted_messages: if m.shared_with.contains(user) {
                        s.encrypted_messages
                    } else {
                        s.encrypted_messages.insert(
                            id,
                            EncryptedMessageView { shared_with: m.shared_with.push(user), ..m },
                        )
                    },
                    shares: listed(s.shares, user, id),
                    ..s
                },
                Ok(()),
            )
        }
    }
}

/// Adds `id` to the list of `who` in the share index, unless it is there.
fn add_shared(state: &mut ChatState, who: &Identity, id: u64)
    requires
        old(state).wf(),
    ensures
        final(state).wf(),
        final(state)@ == (ChatView { shares: listed(old(state)@.shares, who@, id), ..old(state)@ }),
{
    let changed = match state.shared_ids(who) {
        Some(ids) => {
            if holds_id(&ids.ids, id) {
                None
            } else {
                let mut changed = ids.clone();
                changed.ids.push(id);
                Some(changed)
            }
        },
        None => {
            let mut ids: Vec<u64> = Vec::new();
            ids.push(id);
            assert(ids@ =~= seq![id]);
            Some(MessageIds { ids })
        },
    };
    match changed {
        Some(ids) => {
            state.put_shared_ids(who, ids);
        },
        None => {},
    }
}

/// Shares an encrypted message of the caller with `user_principal`.
pub fn share_encrypted_message(
    state: &mut ChatState,
    caller: &Identity,
    message_id: u64,
    user_principal: &Identity,
) -> (r: Result<(), ChatError>)
    requires
        old(state).inv(),
    ensures
        final(state).inv(),
        final(state)@ == share_encrypted_message_spec(
            old(state)@,
            caller@,
            message_id,
            user_principal@,
        ).0,
        r == share_encrypted_message_spec(old(state)@, caller@, message_id, user_principal@).1,
{
    match state.sealed_message(message_id) {
        Some(message) => {
            if !message.author.same(caller) {
                return Err(ChatError::NotAuthorized);
            }
            if message.shared_with.len() >= MAX_SHARES {
                return Err(ChatError::InvalidInput);
            }
            if user_principal.same(&message.author) {
                return Ok(());
            }
        },
        None => {
            return Err(ChatError::NotFound);
        },
    }
    let share = |message: &EncryptedMessage| -> (changed: EncryptedMessage)
        ensures
            changed@ == (if message@.shared_with.contains(user_principal@) {
                message@
            } else {
                EncryptedMessageView {
                    shared_with: message@.shared_with.push(user_principal@),
                    ..message@
                }
            }),
        {
            let mut changed = message.clone();
            if !holds_identity(&changed.shared_with, user_principal) {
                changed.shared_with.push(user_principal.clone());
                assert(changed@.shared_with =~= message@.shared_with.push(user_principal@));
            }
            changed
        };
    let _ = state.change_sealed_message(message_id, share);
    add_shared(state, user_principal, message_id);
    proof {
        lemma_share_valid(old(state)@, caller@, message_id, user_principal@);
    }
    Ok(())
}

/// Sharing keeps a valid state valid.
pub proof fn lemma_share_valid(s: ChatView, caller: Seq<u8>, id: u64, user: Seq<u8>)
    requires
        valid(s),
    ensures
        valid(share_encrypted_message_spec(s, caller, id, user).0),
{
    let after = share_encrypted_message_spec(s, caller, id, user).0;
    if after != s {
        let m = s.encrypted_messages[id];
        let shared = after.encrypted_messages[id].shared_with;
        assert(after.encrypted_messages.dom() =~= s.encrypted_messages.dom());
        assert forall|w: Seq<u8>| shared.contains(w) <==> m.shared_with.contains(w) || w == user by {
            if !m.shared_with.contains(user) {
                let p = m.shared_with.push(user);
                if m.shared_with.contains(w) {
                    let i = m.shared_with.index_of(w);
                    assert(p[i] == w);
                }
                assert(p[m.shared_with.len() as int] == user);
                if p.contains(w) {
                    let i = p.index_of(w);
                    if i < m.shared_with.len() {
                        assert(m.shared_with[i] == w);
                    }
                }
            }
        }
        assert(shared.no_duplicates());
        assert(encrypted_valid(after));
        let list = after.shares[user];
        assert forall|x: u64| list.contains(x) <==> names(s.shares, user, x) || x == id by {
            if s.shares.contains_key(user) {
                if !s.shares[user].contains(id) {
                    lemma_pushed(s.shares[user], id, x);
                }
            } else {
                assert(list == seq![id]);
                assert(list[0] == id);
                if list.contains(x) {
                    let i = list.index_of(x);
                }
            }
        }
        assert(list.len() > 0 && list.no_duplicates());
        assert(owners_valid(after)) by {
            assert forall|who: Seq<u8>, x: u64| #[trigger] names(after.owners, who, x) implies after.encrypted_messages.contains_key(
                x,
            ) && after.encrypted_messages[x].author == who by {
                assert(names(s.owners, who, x));
            }
            assert forall|x: u64| #[trigger] after.encrypted_messages.contains_key(x) implies names(
                after.owners,
                after.encrypted_messages[x].author,
                x,
            ) by {
                assert(s.encrypted_messages.contains_key(x));
                assert(names(s.owners, s.encrypted_messages[x].author, x));
            }
        }
        assert(shares_valid(after)) by {
            assert forall|who: Seq<u8>, x: u64| #[trigger] names(after.shares, who, x) implies after.encrypted_messages.contains_key(
                x,
            ) && after.encrypted_messages[x].shared_with.contains(who) by {
                if who == user {
                    assert(list.contains(x));
                    if x != id {
                        assert(names(s.shares, who, x));
                    }
                } else {
                    assert(names(s.shares, who, x));
                }
            }
            assert forall|who: Seq<u8>, x: u64|
                after.encrypted_messages.contains_key(x)
                    && #[trigger] after.encrypted_messages[x].shared_with.contains(
                    who,
                ) implies names(after.shares, who, x) by {
                assert(s.encrypted_messages.contains_key(x));
                if x == id {
                    if who != user {
                        assert(m.shared_with.contains(who));
                        assert(names(s.shares, who, x));
                    }
                } else {
                    assert(s.encrypted_messages[x].shared_with.contains(who));
                    assert(names(s.shares, who, x));
                    if who == user {
                        assert(list.contains(x));
                    }
                }
            }
        }
    }
}

/// What deleting an encrypted message does: it refuses a message that is not
/// there and a caller who did not write it; else the message and every trace
/// of it in the indices are removed.
pub open spec fn delete_encrypted_message_spec(s: ChatView, caller: Seq<u8>, id: u64) -> (
    ChatView,
    Result<(), ChatError>,
) {
    if !s.encrypted_messages.contains_key(id) {
        (s, Err(ChatError::NotFound))
    } else if s.encrypted_messages[id].author != caller {
        (s, Err(ChatError::NotAuthorized))
    } else {
        (removed(s, id), Ok(()))
    }
}

/// A copy of `ids` without `id`.
fn ids_without(ids: &Vec<u64>, id: u64) -> (r: Vec<u64>)
    ensures
        r@ == without(ids@, id),
{
    let mut r: Vec<u64> = Vec::new();
    let mut i: usize = 0;
    while i < ids.len()
        invariant
            i <= ids.len(),
            r@ == without(ids@.take(i as int), id),
        decreases ids.len() - i,
    {
        assert(ids@.take(i + 1).drop_last() =~= ids@.take(i as int));
        if ids[i] != id {
            r.push(ids[i]);
        }
        i += 1;
    }
    assert(ids@.take(i as int) =~= ids@);
    r
}

/// Strips `id` from the list of `who` in the owner index.
fn strip_owned(state: &mut ChatState, who: &Identity, id: u64)
    requires
        old(state).wf(),
    ensures
        final(state).wf(),
        final(state)@ == (ChatView { owners: stripped(old(state)@.owners, who@, id), ..old(state)@ }),
{
    let kept = match state.owned_ids(who) {
        Some(ids) => Some(ids_without(&ids.ids, id)),
        None => None,
    };
    match kept {
        Some(ids) => {
            if ids.len() > 0 {
                state.put_owned_ids(who, MessageIds { ids });
            } else {
                state.remove_owned_ids(who);
            }
        },
        None => {},
    }
}

/// Strips `id` from the list of `who` in the share index.
pub(crate) fn strip_shared(state: &mut ChatState, who: &Identity, id: u64)
    requires
        old(state).wf(),
    ensures
        final(state).wf(),
        final(state)@ == (ChatView { shares: stripped(old(state)@.shares, who@, id), ..old(state)@ }),
{
    let kept = match state.shared_ids(who) {
        Some(ids) => Some(ids_without(&ids.ids, id)),
        None => None,
    };
    match kept {
        Some(ids) => {
            if ids.len() > 0 {
                state.put_shared_ids(who, MessageIds { ids });
            } else {
                state.remove_shared_ids(who);
            }
        },
        None => {},
    }
}

/// Removes the encrypted message `id`, which is there, and every trace of it
/// in the indices. Deletion by its author and the sweep of expired messages
/// both remove a message in this way.
pub(crate) fn remove_with_indices(state: &mut ChatState, id: u64)
    requires
        old(state).inv(),
        old(state)@.encrypted_messages.contains_key(id),
    ensures
        final(state).inv(),
        final(state)@ == removed(old(state)@, id),
{
    let (author, shared_with) = match state.sealed_message(id) {
        Some(message) => (message.author.clone(), clone_identities(&message.shared_with)),
        None => (Identity::anonymous(), Vec::new()),
    };
    let ghost before = state@;
    let ghost whom = shared_with.deep_view();
    strip_owned(state, &author, id);
    assert(whom.skip(0) =~= whom);
    let mut i: usize = 0;
    while i < shared_with.len()
        invariant
            i <= shared_with.len(),
            whom == shared_with.deep_view(),
            state.wf(),
            state@ == (ChatView {
                owners: stripped(before.owners, author@, id),
                shares: state@.shares,
                ..before
            }),
            stripped_for_all(state@.shares, whom.skip(i as int), id) == stripped_for_all(
                before.shares,
                whom,
                id,
            ),
        decreases shared_with.len() - i,
    {
        assert(whom.skip(i as int).first() == shared_with[i as int]@);
        assert(whom.skip(i as int).drop_first() =~= whom.skip(i + 1));
        strip_shared(state, &shared_with[i], id);
        i += 1;
    }
    assert(whom.skip(i as int) =~= Seq::<Seq<u8>>::empty());
    state.remove_sealed_message(id);
    proof {
        lemma_removed_valid(before, id);
    }
}

/// Deletes an encrypted message of the caller.
pub fn delete_encrypted_message(state: &mut ChatState, caller: &Identity, message_id: u64) -> (r:
    Result<(), ChatError>)
    requires
        old(state).inv(),
    ensures
        final(state).inv(),
        final(state)@ == delete_encrypted_message_spec(old(state)@, caller@, message_id).0,
        r == delete_encrypted_message_spec(old(state)@, caller@, message_id).1,
{
    match state.sealed_message(message_id) {
        Some(message) => {
            if !message.author.same(caller) {
                return Err(ChatError::NotAuthorized);
            }
        },
        None => {
            return Err(ChatError::NotFound);
        },
    }
    remove_with_indices(state, message_id);
    Ok(())
}

/// Those of `ids` whose encrypted message has expired at time `now`, in
/// their order.
pub open spec fn expired_among(s: ChatView, ids: Seq<u64>, now: u64) -> Seq<u64>
    decreases ids.len(),
{
    if ids.len() == 0 {
        ids
    } else if s.encrypted_messages.contains_key(ids.last()) && expired(
        s.encrypted_messages[ids.last()],
        now,
    ) {
        expired_among(s, ids.drop_last(), now).push(ids.last())
    } else {
        expired_among(s, ids.drop_last(), now)
    }
}

/// The state after one step of a sweep: the encrypted message `id` is
/// removed with every trace of it, if it is there.
pub open spec fn swept_one(s: ChatView, id: u64) -> ChatView {
    if s.encrypted_messages.contains_key(id) {
        removed(s, id)
    } else {
        s
    }
}

/// The state after the encrypted messages `ids` are removed in turn.
pub open spec fn swept(s: ChatView, ids: Seq<u64>) -> ChatView
    decreases ids.len(),
{
    if ids.len() == 0 {
        s
    } else {
        swept(swept_one(s, ids.first()), ids.drop_first())
    }
}

/// How many messages are removed when `ids` are removed in turn.
pub open spec fn swept_count(s: ChatView, ids: Seq<u64>) -> nat
    decreases ids.len(),
{
    if ids.len() == 0 {
        0
    } else {
        (if s.encrypted_messages.contains_key(ids.first()) {
            1nat
        } else {
            0nat
        }) + swept_count(swept_one(s, ids.first()), ids.drop_first())
    }
}

/// What a sweep at time `now` does: every encrypted message that has
/// expired is removed, in ascending order of ids, each with every trace of
/// it in the indices. The number of messages removed is handed back.
pub open spec fn cleanup_expired_messages_spec(s: ChatView, now: u64) -> (ChatView, nat) {
    let ids = expired_among(s, encrypted_walk(s), now);
    (swept(s, ids), swept_count(s, ids))
}

/// What `expired_among` picks.
pub proof fn lemma_expired_among(s: ChatView, ids: Seq<u64>, now: u64)
    ensures
        forall|x: u64| #[trigger]
            expired_among(s, ids, now).contains(x) <==> ids.contains(x)
                && s.encrypted_messages.contains_key(x) && expired(s.encrypted_messages[x], now),
        expired_among(s, ids, now).len() <= ids.len(),
    decreases ids.len(),
{
    if ids.len() > 0 {
        let front = ids.drop_last();
        let last = ids.last();
        lemma_expired_among(s, front, now);
        assert(ids =~= front.push(last));
        assert forall|x: u64| #[trigger]
            expired_among(s, ids, now).contains(x) <==> ids.contains(x)
                && s.encrypted_messages.contains_key(x) && expired(
                s.encrypted_messages[x],
                now,
            ) by {
            lemma_pushed(front, last, x);
            lemma_pushed(expired_among(s, front, now), last, x);
            assert(expired_among(s, front, now).contains(x) <==> front.contains(x)
                && s.encrypted_messages.contains_key(x) && expired(s.encrypted_messages[x], now));
        }
    }
}

/// What a sweep leaves: the messages that were not swept, as they were, and
/// nothing of what is outside the encrypted messages and their indices is
/// touched. A valid state stays valid, so that no index list names a message
/// that is gone.
pub proof fn lemma_swept(s: ChatView, ids: Seq<u64>)
    ensures
        forall|x: u64| #[trigger]
            swept(s, ids).encrypted_messages.contains_key(x) <==> s.encrypted_messages.contains_key(
                x,
            ) && !ids.contains(x),
        forall|x: u64| #[trigger]
            swept(s, ids).encrypted_messages.contains_key(x) ==> swept(s, ids).encrypted_messages[x]
                == s.encrypted_messages[x],
        swept(s, ids).users == s.users,
        swept(s, ids).channels == s.channels,
        swept(s, ids).messages == s.messages,
        swept(s, ids).next_message_id == s.next_message_id,
        swept(s, ids).next_channel_id == s.next_channel_id,
        swept(s, ids).key_name == s.key_name,
        valid(s) ==> valid(swept(s, ids)),
        swept_count(s, ids) <= ids.len(),
        (forall|x: u64| ids.contains(x) ==> !s.encrypted_messages.contains_key(x)) ==> swept(s, ids)
            == s && swept_count(s, ids) == 0,
    decreases ids.len(),
{
    if ids.len() > 0 {
        let first = ids.first();
        let rest = ids.drop_first();
        let step = swept_one(s, first);
        if valid(s) && s.encrypted_messages.contains_key(first) {
            lemma_removed_valid(s, first);
        }
        lemma_swept(step, rest);
        assert(ids[0] == first);
        assert forall|x: u64| ids.contains(x) <==> x == first || rest.contains(x) by {
            if rest.contains(x) {
                let i = rest.index_of(x);
                assert(ids[i + 1] == x);
            }
            if ids.contains(x) && x != first {
                let i = ids.index_of(x);
                assert(rest[i - 1] == x);
            }
        }
        assert forall|x: u64| #[trigger]
            swept(s, ids).encrypted_messages.contains_key(x) <==> s.encrypted_messages.contains_key(
                x,
            ) && !ids.contains(x) by {
            assert(swept(step, rest).encrypted_messages.contains_key(x)
                <==> step.encrypted_messages.contains_key(x) && !rest.contains(x));
        }
        assert forall|x: u64| #[trigger]
            swept(s, ids).encrypted_messages.contains_key(x) implies swept(
            s,
            ids,
        ).encrypted_messages[x] == s.encrypted_messages[x] by {
            assert(swept(step, rest).encrypted_messages.contains_key(x));
        }
        if forall|x: u64| ids.contains(x) ==> !s.encrypted_messages.contains_key(x) {
            assert(ids.contains(first));
            assert(step == s);
            assert forall|x: u64| rest.contains(x) implies !step.encrypted_messages.contains_key(
                x,
            ) by {
                assert(ids.contains(x));
            }
        }
    }
}

/// The walk of the encrypted messages of a valid state lists them all.
pub proof fn lemma_walk_lists(s: ChatView)
    requires
        valid(s),
    ensures
        crate::table::is_listing::<u64>(encrypted_walk(s), s.encrypted_messages.dom()),
{
    crate::table::lemma_listing_exists::<u64>(s.encrypted_messages.dom());
}

/// Removes every encrypted message that has expired at time `now`, and
/// returns how many were removed.
pub fn cleanup_expired_messages(state: &mut ChatState, now: u64) -> (r: u64)
    requires
        old(state).inv(),
    ensures
        final(state).inv(),
        final(state)@ == cleanup_expired_messages_spec(old(state)@, now).0,
        r == cleanup_expired_messages_spec(old(state)@, now).1,
{
    let ghost walk = encrypted_walk(state@);
    let n = state.sealed_count();
    let mut expired_ids: Vec<u64> = Vec::new();
    let mut i: usize = 0;
    while i < n
        invariant
            state.inv(),
            state@ == old(state)@,
            walk == encrypted_walk(state@),
            n == walk.len(),
            i <= n,
            expired_ids@ == expired_among(state@, walk.take(i as int), now),
        decreases n - i,
    {
        proof {
            state.lemma_walks();
        }
        let message = state.sealed_at(i);
        assert(walk.take(i + 1).drop_last() =~= walk.take(i as int));
        assert(walk.take(i + 1).last() == walk[i as int]);
        assert(message.id == walk[i as int]);
        if message.is_expired(now) {
            expired_ids.push(message.id);
        }
        i += 1;
    }
    assert(walk.take(i as int) =~= walk);
    let ghost ids = expired_ids@;
    proof {
        lemma_expired_among(old(state)@, walk, now);
        assert(ids.skip(0) =~= ids);
    }
    let mut cleaned_count: u64 = 0;
    let mut k: usize = 0;
    while k < expired_ids.len()
        invariant
            state.inv(),
            ids == expired_ids@,
            k <= ids.len(),
            cleaned_count <= k,
            swept(state@, ids.skip(k as int)) == swept(old(state)@, ids),
            cleaned_count + swept_count(state@, ids.skip(k as int)) == swept_count(
                old(state)@,
                ids,
            ),
        decreases ids.len() - k,
    {
        let message_id = expired_ids[k];
        assert(ids.skip(k as int).first() == message_id);
        assert(ids.skip(k as int).drop_first() =~= ids.skip(k + 1));
        if state.sealed_message(message_id).is_some() {
            remove_with_indices(state, message_id);
            cleaned_count = cleaned_count + 1;
        }
        k += 1;
    }
    assert(ids.skip(k as int) =~= Seq::<u64>::empty());
    cleaned_count
}

} // verus!
