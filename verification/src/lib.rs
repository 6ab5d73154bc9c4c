//! A FIX 4.2 session engine: tag-value codec, message validator, sequenced
//! message store, and the session protocol state machine.
//!
//! The wire codec, the validator, the store and the session logic are verified;
//! transport and file plumbing live outside the library and drive it with plain
//! values.

pub mod config;
pub mod error;
pub mod message;
pub mod session;
pub mod store;
pub mod text;
pub mod timestamp;
pub mod transport;

use vstd::prelude::*;

verus! {

} // verus!
