//! Notification substreams between peers: negotiation, per-peer session
//! state, bounded outbound queues and the events that consumers observe.

use vstd::prelude::*;

pub mod events;
pub mod frame;
pub mod gate;
pub mod handler;
pub mod metadata;
pub mod peer;
pub mod service;
pub mod sink;
pub mod table;
