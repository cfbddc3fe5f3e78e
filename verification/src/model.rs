//! The entities of the chat and their mathematical values.
//!
//! Each entity has a view in which texts are sequences of characters,
//! identities are sequences of bytes and lists are sequences. Contracts speak
//! of these views.

use crate::identity::Identity;
use std::collections::HashMap;
use vstd::prelude::*;

verus! {

/// Why an operation was refused.
#[derive(Debug, Clone, Copy, PartialEq, Eq, Structural)]
pub enum ChatError {
    NotFound,
    NotAuthorized,
    InvalidInput,
    UserAlreadyExists,
    ChannelNotFound,
    MessageTooLarge,
    AttachmentTooLarge,
    InvalidPassword,
}

/// The kind of a message.
#[derive(Debug, Clone, Copy, PartialEq, Eq, Structural)]
pub enum MessageType {
    Text,
    Image,
    System,
}

/// A file sent along with a message.
#[derive(Debug, PartialEq, Eq)]
pub struct Attachment {
    pub file_type: String,
    pub data: Vec<u8>,
    pub filename: String,
    pub size: u64,
}

/// The mathematical value of an [`Attachment`].
pub struct AttachmentView {
    pub file_type: Seq<char>,
    pub data: Seq<u8>,
    pub filename: Seq<char>,
    pub size: u64,
}

impl View for Attachment {
    type V = AttachmentView;

    open spec fn view(&self) -> AttachmentView {
        AttachmentView {
            file_type: self.file_type@,
            data: self.data@,
            filename: self.filename@,
            size: self.size,
        }
    }
}

impl DeepView for Attachment {
    type V = AttachmentView;

    open spec fn deep_view(&self) -> AttachmentView {
        self@
    }
}

impl Clone for Attachment {
    fn clone(&self) -> (r: Self)
        ensures
            r@ == self@,
    {
        Attachment {
            file_type: self.file_type.clone(),
            data: self.data.clone(),
            filename: self.filename.clone(),
            size: self.size,
        }
    }
}

/// A copy of a list of attachments.
pub fn clone_attachments(list: &Vec<Attachment>) -> (r: Vec<Attachment>)
    ensures
        r.deep_view() == list.deep_view(),
{
    let mut r: Vec<Attachment> = Vec::new();
    let mut i: usize = 0;
    while i < list.len()
        invariant
            i <= list.len(),
            r.len() == i,
            forall|j: int| 0 <= j < i ==> r[j]@ == list[j]@,
        decreases list.len() - i,
    {
        r.push(list[i].clone());
        i += 1;
    }
    assert(r.deep_view() =~= list.deep_view());
    r
}

/// A copy of a list of identities.
pub fn clone_identities(list: &Vec<Identity>) -> (r: Vec<Identity>)
    ensures
        r.deep_view() == list.deep_view(),
{
    let mut r: Vec<Identity> = Vec::new();
    let mut i: usize = 0;
    while i < list.len()
        invariant
            i <= list.len(),
            r.len() == i,
            forall|j: int| 0 <= j < i ==> r[j]@ == list[j]@,
        decreases list.len() - i,
    {
        r.push(list[i].clone());
        i += 1;
    }
    assert(r.deep_view() =~= list.deep_view());
    r
}

/// A copy of a text that may be absent.
pub fn clone_optional_text(text: &Option<String>) -> (r: Option<String>)
    ensures
        r.deep_view() == text.deep_view(),
{
    match text {
        Some(t) => Some(t.clone()),
        None => None,
    }
}

/// Whether `who` is in `list`.
pub fn holds_identity(list: &Vec<Identity>, who: &Identity) -> (r: bool)
    ensures
        r == list.deep_view().contains(who@),
{
    let mut i: usize = 0;
    while i < list.len()
        invariant
            i <= list.len(),
            forall|j: int| 0 <= j < i ==> list[j]@ != who@,
        decreases list.len() - i,
    {
        if list[i].same(who) {
            assert(list.deep_view()[i as int] == who@);
            return true;
        }
        i += 1;
    }
    false
}

/// The view of what an operation hands back: a value or the reason for a
/// refusal.
pub open spec fn result_view<T: View>(r: Result<T, ChatError>) -> Result<T::V, ChatError> {
    match r {
        Ok(v) => Ok(v@),
        Err(e) => Err(e),
    }
}

/// The view of a value that may be absent.
pub open spec fn option_view<T: View>(r: Option<T>) -> Option<T::V> {
    match r {
        Some(v) => Some(v@),
        None => None,
    }
}

/// A plaintext message.
#[derive(Debug, PartialEq, Eq)]
pub struct Message {
    pub id: u64,
    pub author: Identity,
    pub content: String,
    pub timestamp: u64,
    pub channel_id: Option<u64>,
    pub reply_to: Option<u64>,
    pub message_type: MessageType,
    pub attachments: Vec<Attachment>,
}

/// The mathematical value of a [`Message`].
pub struct MessageView {
    pub id: u64,
    pub author: Seq<u8>,
    pub content: Seq<char>,
    pub timestamp: u64,
    pub channel_id: Option<u64>,
    pub reply_to: Option<u64>,
    pub message_type: MessageType,
    pub attachments: Seq<AttachmentView>,
}

impl View for Message {
    type V = MessageView;

    open spec fn view(&self) -> MessageView {
        MessageView {
            id: self.id,
            author: self.author@,
            content: self.content@,
            timestamp: self.timestamp,
            channel_id: self.channel_id,
            reply_to: self.reply_to,
            message_type: self.message_type,
            attachments: self.attachments.deep_view(),
        }
    }
}

impl DeepView for Message {
    type V = MessageView;

    open spec fn deep_view(&self) -> MessageView {
        self@
    }
}

impl Clone for Message {
    fn clone(&self) -> (r: Self)
        ensures
            r@ == self@,
    {
        Message {
            id: self.id,
            author: self.author.clone(),
            content: self.content.clone(),
            timestamp: self.timestamp,
            channel_id: self.channel_id,
            reply_to: self.reply_to,
            message_type: self.message_type,
            attachments: clone_attachments(&self.attachments),
        }
    }
}

/// A registered user.
#[derive(Debug, PartialEq, Eq)]
pub struct User {
    pub user_principal: Identity,
    pub username: String,
    pub avatar_url: Option<String>,
    pub bio: Option<String>,
    pub joined_at: u64,
    pub message_count: u64,
    pub last_active: u64,
    /// Keys kept for the user, by context or message id.
    pub encrypted_keys: HashMap<String, String>,
}

/// The mathematical value of a [`User`].
pub struct UserView {
    pub user_principal: Seq<u8>,
    pub username: Seq<char>,
    pub avatar_url: Option<Seq<char>>,
    pub bio: Option<Seq<char>>,
    pub joined_at: u64,
    pub message_count: u64,
    pub last_active: u64,
    pub encrypted_keys: Map<String, String>,
}

impl View for User {
    type V = UserView;

    open spec fn view(&self) -> UserView {
        UserView {
            user_principal: self.user_principal@,
            username: self.username@,
            avatar_url: self.avatar_url.deep_view(),
            bio: self.bio.deep_view(),
            joined_at: self.joined_at,
            message_count: self.message_count,
            last_active: self.last_active,
            encrypted_keys: self.encrypted_keys@,
        }
    }
}

impl DeepView for User {
    type V = UserView;

    open spec fn deep_view(&self) -> UserView {
        self@
    }
}

impl Clone for User {
    fn clone(&self) -> (r: Self)
        ensures
            r@ == self@,
    {
        User {
            user_principal: self.user_principal.clone(),
            username: self.username.clone(),
            avatar_url: clone_optional_text(&self.avatar_url),
            bio: clone_optional_text(&self.bio),
            joined_at: self.joined_at,
            message_count: self.message_count,
            last_active: self.last_active,
            encrypted_keys: self.encrypted_keys.clone(),
        }
    }
}

/// A channel.
#[derive(Debug, PartialEq, Eq)]
pub struct Channel {
    pub id: u64,
    pub name: String,
    pub description: Option<String>,
    pub created_by: Identity,
    pub created_at: u64,
    pub members: Vec<Identity>,
    pub message_count: u64,
    pub last_message_at: Option<u64>,
    pub is_encrypted: bool,
    /// The hash of the password of a protected channel.
    pub password_hash: Option<String>,
}

/// The mathematical value of a [`Channel`].
pub struct ChannelView {
    pub id: u64,
    pub name: Seq<char>,
    pub description: Option<Seq<char>>,
    pub created_by: Seq<u8>,
    pub created_at: u64,
    pub members: Seq<Seq<u8>>,
    pub message_count: u64,
    pub last_message_at: Option<u64>,
    pub is_encrypted: bool,
    pub password_hash: Option<Seq<char>>,
}

impl View for Channel {
    type V = ChannelView;

    open spec fn view(&self) -> ChannelView {
        ChannelView {
            id: self.id,
            name: self.name@,
            description: self.description.deep_view(),
            created_by: self.created_by@,
            created_at: self.created_at,
            members: self.members.deep_view(),
            message_count: self.message_count,
            last_message_at: self.last_message_at,
            is_encrypted: self.is_encrypted,
            password_hash: self.password_hash.deep_view(),
        }
    }
}

impl DeepView for Channel {
    type V = ChannelView;

    open spec fn deep_view(&self) -> ChannelView {
        self@
    }
}

impl Clone for Channel {
    fn clone(&self) -> (r: Self)
        ensures
            r@ == self@,
    {
        Channel {
            id: self.id,
            name: self.name.clone(),
            description: clone_optional_text(&self.description),
            created_by: self.created_by.clone(),
            created_at: self.created_at,
            members: clone_identities(&self.members),
            message_count: self.message_count,
            last_message_at: self.last_message_at,
            is_encrypted: self.is_encrypted,
            password_hash: clone_optional_text(&self.password_hash),
        }
    }
}

/// A message whose content is kept sealed and which expires.
#[derive(Debug, PartialEq, Eq)]
pub struct EncryptedMessage {
    pub id: u64,
    pub encrypted_content: String,
    pub author: Identity,
    pub timestamp: u64,
    /// A day after creation.
    pub expires_at: u64,
    pub channel_id: Option<u64>,
    pub reply_to: Option<u64>,
    pub message_type: MessageType,
    /// Those with whom the message is shared. The author is not among them.
    pub shared_with: Vec<Identity>,
    pub attachments: Vec<Attachment>,
}

/// The mathematical value of an [`EncryptedMessage`].
pub struct EncryptedMessageView {
    pub id: u64,
    pub encrypted_content: Seq<char>,
    pub author: Seq<u8>,
    pub timestamp: u64,
    pub expires_at: u64,
    pub channel_id: Option<u64>,
    pub reply_to: Option<u64>,
    pub message_type: MessageType,
    pub shared_with: Seq<Seq<u8>>,
    pub attachments: Seq<AttachmentView>,
}

impl View for EncryptedMessage {
    type V = EncryptedMessageView;

    open spec fn view(&self) -> EncryptedMessageView {
        EncryptedMessageView {
            id: self.id,
            encrypted_content: self.encrypted_content@,
            author: self.author@,
            timestamp: self.timestamp,
            expires_at: self.expires_at,
            channel_id: self.channel_id,
            reply_to: self.reply_to,
            message_type: self.message_type,
            shared_with: self.shared_with.deep_view(),
            attachments: self.attachments.deep_view(),
        }
    }
}

impl DeepView for EncryptedMessage {
    type V = EncryptedMessageView;

    open spec fn deep_view(&self) -> EncryptedMessageView {
        self@
    }
}

impl Clone for EncryptedMessage {
    fn clone(&self) -> (r: Self)
        ensures
            r@ == self@,
    {
        EncryptedMessage {
            id: self.id,
            encrypted_content: self.encrypted_content.clone(),
            author: self.author.clone(),
            timestamp: self.timestamp,
            expires_at: self.expires_at,
            channel_id: self.channel_id,
            reply_to: self.reply_to,
            message_type: self.message_type,
            shared_with: clone_identities(&self.shared_with),
            attachments: clone_attachments(&self.attachments),
        }
    }
}

/// The ids of the encrypted messages that an identity owns, or that are
/// shared with it.
#[derive(Debug, PartialEq, Eq)]
pub struct MessageIds {
    pub ids: Vec<u64>,
}

impl View for MessageIds {
    type V = Seq<u64>;

    open spec fn view(&self) -> Seq<u64> {
        self.ids@
    }
}

impl Clone for MessageIds {
    fn clone(&self) -> (r: Self)
        ensures
            r@ == self@,
    {
        MessageIds { ids: self.ids.clone() }
    }
}

impl Default for MessageIds {
    fn default() -> (r: Self)
        ensures
            r@ == Seq::<u64>::empty(),
    {
        MessageIds { ids: Vec::new() }
    }
}

impl MessageIds {
    /// Walks the ids in the order in which they were added.
    pub fn iter(&self) -> (r: core::slice::Iter<'_, u64>)
        ensures
            vstd::std_specs::slice::into_iter_elts(r) == self@,
    {
        let ids = self.ids.as_slice();
        let r = ids.iter();
        proof {
            vstd::std_specs::slice::axiom_spec_slice_iter(ids);
        }
        r
    }
}

/// What a caller sends to post a message.
#[derive(Debug, PartialEq, Eq)]
pub struct CreateMessageRequest {
    pub content: String,
    pub channel_id: Option<u64>,
    pub reply_to: Option<u64>,
    pub message_type: MessageType,
    pub attachments: Vec<Attachment>,
}

/// What a caller sends to open a channel.
#[derive(Debug, PartialEq, Eq)]
pub struct CreateChannelRequest {
    pub name: String,
    pub description: Option<String>,
}

/// What a caller sends to change its profile. A field left out stays as it is.
#[derive(Debug, PartialEq, Eq)]
pub struct UpdateUserRequest {
    pub username: Option<String>,
    pub bio: Option<String>,
    pub avatar_url: Option<String>,
}

/// A message together with the display name of its author.
#[derive(Debug, PartialEq, Eq)]
pub struct MessageWithAuthor {
    pub id: u64,
    pub author: Identity,
    pub author_username: String,
    pub content: String,
    pub timestamp: u64,
    pub reply_to: Option<u64>,
    pub message_type: MessageType,
    pub attachments: Vec<Attachment>,
}

/// The mathematical value of a [`MessageWithAuthor`].
pub struct MessageWithAuthorView {
    pub id: u64,
    pub author: Seq<u8>,
    pub author_username: Seq<char>,
    pub content: Seq<char>,
    pub timestamp: u64,
    pub reply_to: Option<u64>,
    pub message_type: MessageType,
    pub attachments: Seq<AttachmentView>,
}

impl View for MessageWithAuthor {
    type V = MessageWithAuthorView;

    open spec fn view(&self) -> MessageWithAuthorView {
        MessageWithAuthorView {
            id: self.id,
            author: self.author@,
            author_username: self.author_username@,
            content: self.content@,
            timestamp: self.timestamp,
            reply_to: self.reply_to,
            message_type: self.message_type,
            attachments: self.attachments.deep_view(),
        }
    }
}

impl DeepView for MessageWithAuthor {
    type V = MessageWithAuthorView;

    open spec fn deep_view(&self) -> MessageWithAuthorView {
        self@
    }
}

impl Clone for MessageWithAuthor {
    fn clone(&self) -> (r: Self)
        ensures
            r@ == self@,
    {
        MessageWithAuthor {
            id: self.id,
            author: self.author.clone(),
            author_username: self.author_username.clone(),
            content: self.content.clone(),
            timestamp: self.timestamp,
            reply_to: self.reply_to,
            message_type: self.message_type,
            attachments: clone_attachments(&self.attachments),
        }
    }
}

/// One page of messages.
#[derive(Debug, PartialEq, Eq)]
pub struct PaginatedMessages {
    pub messages: Vec<MessageWithAuthor>,
    /// How many messages match, on all pages together.
    pub total_count: u64,
    /// Whether messages follow after this page.
    pub has_more: bool,
}

/// The mathematical value of a [`PaginatedMessages`].
pub struct PaginatedMessagesView {
    pub messages: Seq<MessageWithAuthorView>,
    pub total_count: u64,
    pub has_more: bool,
}

impl View for PaginatedMessages {
    type V = PaginatedMessagesView;

    open spec fn view(&self) -> PaginatedMessagesView {
        PaginatedMessagesView {
            messages: self.messages.deep_view(),
            total_count: self.total_count,
            has_more: self.has_more,
        }
    }
}

} // verus!
