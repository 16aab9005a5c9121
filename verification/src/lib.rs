//! An in-memory key-value store with a line-based command protocol and a
//! textual snapshot format for persistence.

pub mod command;
pub mod handler;
pub mod snapshot;
pub mod store;
mod strops;
