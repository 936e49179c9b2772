//! A local inference daemon's serving core: configuration checks, the
//! length-prefixed wire frames, the request and response texts, the
//! per-connection state machine, and a bounded-width beam search over
//! integer log-probabilities.

use vstd::prelude::*;

pub mod beam;
pub mod config;
pub mod frame;
pub mod message;
pub mod request;
pub mod session;

verus! {

} // verus!
