//! Tick-stamped, last-writer-wins replication of identified objects between
//! one authoritative process and many peers.

pub mod buffer;
pub mod bundle_info;
pub mod client_authority;
pub mod component_info;
pub mod despawn;
pub mod events;
pub mod fragmentation;
pub mod identifier;
pub mod iter;
pub mod packet;
pub mod receive;
pub mod registry;
pub mod renet_impl;
pub mod test_impl;
pub mod tick;
