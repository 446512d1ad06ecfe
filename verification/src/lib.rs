//! Hot-reloadable bundles of files.
//!
//! A bundle is a set of files on disk that a caller-supplied parser turns into one
//! in-memory value. This crate decides which files belong to a bundle, in which order they
//! are taken, what fingerprint they have, and when a freshly parsed value replaces the one
//! in use. It performs no I/O: where a directory or a file has to be read, it says which one
//! and takes what was read as an argument.

pub mod bundle;
pub mod error;
pub mod fingerprint;
pub mod hash_laws;
pub mod loaded;
pub mod options;
pub mod order;
pub mod path;
pub mod path_laws;
pub mod source;
pub mod stability;
pub mod start;
pub mod tree;
pub mod walk_laws;
pub mod watch;

pub use bundle::{static_only, BundleReload, Loaded, PokeHandle};
pub use error::ReloadError;
pub use fingerprint::{DirRead, FileRead, FingerprintStep};
pub use options::BundleReloadOptions;
pub use path::BundlePath;
pub use source::{BundleSource, DirEntry, DirReply, DirWalk, ListStep};
pub use start::{start, start_async, start_async_with_options, start_with_options, Started};
pub use watch::{
    force_poll, poll_once, reload_once, ForcedPoll, Gate, Poll, PollEnd, Reload, Swap, WakeCause,
    WatchStep, Watcher,
};
