//! A small task tracker for Unity-to-Godot asset-conversion work.
//!
//! Each task is a record of string fields keyed by name; a collection maps
//! caller-supplied GUIDs to records. Records are validated against a
//! per-kind table of required keys when they are read back from a document,
//! and a search pass filters the collection by status and by a plain or
//! regular-expression query.
pub mod doc;
pub mod kv;
pub mod search;
pub mod text;
pub mod todo_list;
