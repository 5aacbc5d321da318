//! Extraction of translation keys from parsed source files and their merge
//! into a nested message catalog.
//!
//! - `syntax`: the parsed tree that extraction reads.
//! - `visitor`: the scoped walk that binds translators and collects keys.
//! - `messages`: the message trie, its conflicts, and the merge with a catalog.
//! - `store`: per-file contributions, rebuilt into the trie after each change.
//! - `json`: catalog values and lookups by dotted path.
//! - `text`: splitting and joining dotted names.
//! - `watch`: what to do about a file event.
pub mod json;
pub mod messages;
pub mod store;
pub mod syntax;
pub mod text;
pub mod visitor;
pub mod watch;
