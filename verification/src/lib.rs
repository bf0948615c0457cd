//! Core logic of a LAN peer-to-peer file deployer: the TCP frame layout,
//! the wire messages, chunking and chunk verification, the swarm tracker,
//! the transfer bookkeeping and the parsing behind local network discovery.
pub mod commands;
pub mod network;
pub mod protocol;
pub mod state;
pub mod text;
pub mod transfer;
