//! Verified core of the Rune encrypted notes workspace.

pub mod models;
pub mod text;
pub mod bytes;
pub mod crypto;
pub mod vault;
pub mod timeutil;
pub mod codec;
pub mod order;
pub mod notes;
pub mod folders;
pub mod export;
pub mod attachments;
pub mod whiteboard;
pub mod kanban;
pub mod time_tracking;
pub mod calendar;
pub mod vaults;
pub mod search;
pub mod fsutil;
pub mod docx;
pub mod backup;

