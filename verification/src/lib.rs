//! Core of a local-first block-outliner journal: the on-disk block format,
//! front matter, journal dates, vault paths and listings, link and tag
//! extraction, the derived indexes, task rollover, settings and the rules
//! of Git sync, each with its contract.
#![allow(unused_imports)]

pub mod text;
pub mod block;
pub mod error;
pub mod parser;
pub mod round_trip;
pub mod frontmatter;
pub mod links;
pub mod rollover;
pub mod journal_date;
pub mod slug;
pub mod vault;
pub mod git_sync;
pub mod config;
pub mod index;
pub mod search;
pub mod listing;
pub mod watcher;
pub mod mcp;

pub use block::{Block, Page};
pub use config::{Config, Theme};
pub use error::CoreError;
pub use journal_date::JournalDate;
pub use vault::{PageSummary, Vault, VaultStats};
