//! A Bitcask-style log-structured key-value store.
//!
//! Records are appended to numbered data files; an in-memory index locates
//! the freshest record of each live key. The engine keeps its data files as
//! byte buffers: the host persists each buffer under its file name and hands
//! the bytes back to `Engine::recover` when it reopens the store.
use vstd::prelude::*;

pub mod codec;
pub mod keydir;
pub mod engine;
pub mod frame;
pub mod command;
pub mod laws;

verus! {

} // verus!
