//! A persisted, auto-incrementing keyed-record store over durable storage,
//! with two record families built on it: lottery tickets and draws, and
//! votes, each with its read-only query layer.
//!
//! Records live in a `StableBTreeMap` region as exact byte encodings; a
//! `Cell` region holds the id counter.  Every operation's contract states
//! how it moves the store's model: the last issued id and the records in
//! ascending id order.
pub mod codec;
pub mod lottery;
pub mod storage;
pub mod store;
pub mod votes;
