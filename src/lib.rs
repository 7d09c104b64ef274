//! A flight reservation service over an unreliable datagram transport: a byte-exact wire codec,
//! a reservation engine with time-bounded subscriptions, and the dispatch and invocation
//! semantics that connect them.
use vstd::prelude::*;

pub mod codec;
pub mod text;
pub mod engine;
pub mod dispatch;
pub mod server;
pub mod client;
pub mod config;

verus! {

} // verus!
