//! A minimal in-memory key-value store with a line-oriented text protocol.
//!
//! The crate holds the protocol-handling core: parsing newline-delimited
//! frames into commands, the single-owner store that serializes all
//! mutations, and the per-connection response encoding. Socket handling and
//! task scheduling are left to the embedding program.

pub mod command;
pub mod connection;
pub mod db;
