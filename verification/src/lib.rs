//! Chat backend: users, channels, plaintext messages and self-expiring
//! encrypted messages kept in ordered tables with secondary indices.
//!
//! Every operation takes the application state explicitly, together with the
//! calling identity and the current time, so that the rules of the chat can be
//! stated and proved without reference to a host runtime.
//!
//! - [`table`] is the ordered table that every repository is built on.
//! - [`state`] holds the tables, the indices and the counters, and says what
//!   holds of every state that can be reached.
//! - [`users`], [`channels`], [`messages`], [`encrypted`] and [`reading`] are
//!   the operations. Each has a model that says what it does to the state
//!   and what it hands back, and is proved to do just that.
//! - [`access`] decides who may read an encrypted message.
//! - [`envelope`] and [`password`] seal content and hash passwords.
//! - [`snapshot`] takes the state apart and puts it together again.
//! - [`laws`] states what follows for all states and all inputs.

pub mod access;
pub mod channels;
pub mod encrypted;
pub mod envelope;
pub mod identity;
pub mod laws;
pub mod messages;
pub mod model;
pub mod password;
pub mod reading;
pub mod snapshot;
pub mod state;
pub mod table;
pub mod text;
pub mod users;

pub use crate::channels::{
    create_channel, create_encrypted_channel, delete_channel, fix_general_channel,
    force_delete_channel, get_all_channels, get_channel, join_channel,
};
pub use crate::encrypted::{
    cleanup_expired_messages, create_encrypted_message, delete_encrypted_message,
    share_encrypted_message,
};
pub use crate::identity::Identity;
pub use crate::messages::{get_message, get_messages, get_stats, send_message};
pub use crate::model::{
    Attachment, Channel, ChatError, CreateChannelRequest, CreateMessageRequest, EncryptedMessage,
    Message, MessageIds, MessageType, MessageWithAuthor, PaginatedMessages, UpdateUserRequest,
    User,
};
pub use crate::password::{hash_password, verify_password};
pub use crate::reading::{
    decrypt_all_messages_from_channel, decrypt_encrypted_message,
    encrypted_symmetric_key_for_message, get_encrypted_messages,
    get_encrypted_messages_from_channel, symmetric_key_verification_key_for_encrypted_message,
};
pub use crate::snapshot::{restore, restore_mended, snapshot, Snapshot};
pub use crate::state::{next_channel_id, next_message_id, ChatState};
pub use crate::users::{get_all_users, get_current_user, get_user, register_user, update_user};
