//! Core of a tag-based media-library daemon: entities and their canonical
//! encodings, an upsert tag store with ordering and ownership rules, and the
//! snapshot/patch synchronization engine that keeps subscribers consistent.

pub mod api;
pub mod entity;
pub mod music;
pub mod pool;
pub mod proxy;
pub mod store;
pub mod strutil;
pub mod sync;
pub mod tags;
pub mod title;

