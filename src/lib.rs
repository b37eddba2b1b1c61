//! Core of a client-side collaborative data layer.
//!
//! - `kv`, `keys`, `collab_log`: an ordered byte-keyed store, the layout of
//!   update keys, and the per-object update log with its dense clock.
//! - `document`: the block tree of a document, its actions and undo history.
//! - `rows`, `blocks`, `views`, `layout`: database rows and cells, the bounded
//!   row cache with its fetch requests, and database views.
//! - `folder`: the view tree of a folder and the migration of legacy data.
//! - `session`: the retry rules of write transactions.
//! - `sink`: the outbound message queue with merging, acks and timeouts.
//! - `strmap`: a string-keyed map that keeps insertion order.

pub mod blocks;
pub mod collab_log;
pub mod document;
pub mod folder;
pub mod keys;
pub mod kv;
pub mod layout;
pub mod rows;
pub mod session;
pub mod sink;
pub mod strmap;
pub mod views;
