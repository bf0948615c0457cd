//! Transfers: chunking with SHA-1 checks, the chunk tracker and the swarm decisions.
pub mod chunker;
pub mod swarm;
pub mod tracker;
