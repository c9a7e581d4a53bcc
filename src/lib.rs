//! An encrypted, password-protected clipboard history.
//!
//! The library holds the logic of the store: key derivation and the
//! authenticated envelope around every payload, the record layout of the
//! entries, the entry store with its pruning bound, and the decisions of the
//! clipboard watcher. Reading the clipboard, prompting for passwords and the
//! command line live in the application around it.

pub mod backend;
pub mod browse;
pub mod cli;
pub mod error;
pub mod digest;
pub mod crypto;
pub mod models;
pub mod remote;
pub mod store;
pub mod watcher;
