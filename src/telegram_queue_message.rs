//! The queue message and its builder, under the path that callers of the
//! message type use.
pub use crate::telegram::{MessageStatus, TelegramMessageBuilder, TelegramQueueMessage};
