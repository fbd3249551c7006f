//! The core of a media-fetching client of a drone-relayed packet network:
//! source-routed delivery of fragmented messages, topology discovery and route
//! selection, message reassembly, and the resolver that joins text files with
//! the media they refer to.

pub mod assembler;
pub mod assoc;
pub mod codec;
pub mod file_assembler;
pub mod markup;
pub mod media;
pub mod media_client;
pub mod message;
pub mod message_handler;
pub mod model;
pub mod packet;
pub mod packet_cache;
pub mod route;
pub mod router;
pub mod servers;
