//! Aggregation of event-log source definitions into a catalog of message
//! resource modules and the language-tagged messages they embed.

pub mod catalog;
pub mod expand;
pub mod messages;
pub mod source;
