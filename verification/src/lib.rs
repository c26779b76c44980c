//! An offline-first store of mail, contacts and calendars, and the
//! I/O-free engine that keeps it in step with several remotes.
#![allow(unused_imports)]

pub mod list;
pub mod text;
pub mod text_map;
pub mod id_map;
pub mod summary;
pub mod collection;
pub mod object;
pub mod placement;
pub mod change;
pub mod fnv;
pub mod load;
pub mod remote;
pub mod coroutine;
pub mod open;
pub mod hub;
pub mod mutate;
pub mod rekey;
pub mod scan;
pub mod hash;
pub mod codec;
pub mod sql;
pub mod client;
pub mod cli;
