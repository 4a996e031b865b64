//! The wire format and the decision logic of a peer-to-peer folder share.
use vstd::prelude::*;

pub mod auth;
pub mod authorship;
pub mod base64;
pub mod bench;
pub mod candidates;
pub mod channel;
pub mod chunk_table;
pub mod chunks;
pub mod client;
pub mod codec;
pub mod connect;
pub mod decimal;
pub mod delta;
pub mod digest;
pub mod digest_map;
pub mod error;
pub mod fetch;
pub mod follow;
pub mod framing;
pub mod json;
pub mod known_seeders;
pub mod listing;
pub mod live_state;
pub mod locator;
pub mod lookup;
pub mod manifest;
pub mod mesh;
pub mod mesh_slot;
pub mod negotiate;
pub mod origin;
pub mod peers;
pub mod probe;
pub mod produce;
pub mod roster;
pub mod row_table;
pub mod seed;
pub mod seeder_lane;
pub mod serve;
pub mod serving;
pub mod signal;
pub mod swarm;
pub mod sync;
pub mod text;
pub mod ticket;
pub mod transport_mode;
pub mod update;
pub mod vet;

verus! {

} // verus!
