//! Packets of the Xash3D master server protocol, and the decisions of the programs that
//! speak it.

use vstd::prelude::*;

pub mod addr_text;
pub mod admin;
pub mod cursor;
pub mod error;
pub mod filter;
pub mod game;
pub mod hash_map;
pub mod info_collector;
pub mod master;
pub mod net;
pub mod observer;
pub mod observer_state;
pub mod query;
pub mod query_cli;
pub mod servers;
pub mod text;
pub mod udp_server;
pub mod v6_text;

verus! {

} // verus!
