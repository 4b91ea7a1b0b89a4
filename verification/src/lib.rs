//! Transports that carry messages between the locations of a choreography.

pub mod location_map;
pub mod queues;
pub mod transport;
