//! A small key-value store: a chaining hash table with progressive
//! rehashing, the request encoding of its wire protocol, the framing and
//! chunking decisions of its socket server and client, and the field-offset
//! arithmetic of `#[repr(C)]` structs.

pub mod event_loop;
pub mod hashtable;
pub mod mem;
pub mod net;
pub mod protocol;

pub use net::{ClientError, ReadError, ServerError, SockAddr, WriteError};
