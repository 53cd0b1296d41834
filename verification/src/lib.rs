//! Telegram as a content-addressed file store: the rules behind the client.
mod bytes;
pub mod cli;
pub mod config;
pub mod crypto;
pub mod diff;
pub mod file;
pub mod hashing;
pub mod index;
pub mod key;
pub mod numbers;
pub mod restore;
pub mod session;
pub mod snapshot;
pub mod source;
pub mod sync;
pub mod table;
pub mod telegram_transfer;
pub mod text;
pub mod tg;
pub mod uploader;
