//! The core of an editor for key/value configuration documents.
//!
//! A [`state::ConfigState`] holds the document's text, an editable buffer for
//! every key and the value of every key as it was last committed. Three
//! things change a state: a toggle and a discard ([`sync`]) and a commit
//! ([`commit`]). A
//! [`dispatch::Dispatcher`] routes an input event to one of them by the slot
//! that the event names. A [`cache::ViewCache`] keeps the view that was
//! derived from a state and rebuilds it only when the state has changed by
//! value.
//!
//! The library decides and computes; it reads no file, draws nothing and
//! knows no grammar. A commit asks its caller to write, store and parse, one
//! request at a time, and is told how each went.

pub mod buffer;
pub mod cache;
pub mod commit;
pub mod dispatch;
pub mod state;
pub mod sync;
pub mod table;
pub mod text;
