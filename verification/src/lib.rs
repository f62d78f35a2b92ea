//! Reconciliation engine for a directory watcher built on a kernel facility
//! that reports changes per open file handle rather than per directory tree.
//!
//! The engine owns the bidirectional mapping between paths and handles, the
//! scan-root bookkeeping used to rediscover renamed entries, and the state
//! machine that turns one raw kernel record into at most one semantic event
//! together with the registry updates and follow-up work it requires.
//!
//! Everything that touches the operating system — opening files, the kernel
//! event queue, walking the filesystem — lives with the caller, which feeds
//! plain values (paths, handles, raw records) into this crate and carries out
//! the follow-up actions it is handed back.

pub mod events;
pub mod path;
pub mod registry;
pub mod watcher;

pub use events::{Categories, Event, EventKind, RawRecord};
pub use path::WatchPath;
pub use registry::HandleRegistry;
pub use watcher::{FollowUp, Reconciled, Watcher};
