//! Messages exchanged between peers: UDP presence broadcasts and the TCP
//! transfer / P2P coordination messages. On the wire each message is a JSON
//! object that carries its own `msg_type`; the JSON mapping lives with the
//! I/O layer, these are the values the logic works on.
use vstd::prelude::*;

verus! {

/// Kinds of UDP (broadcast discovery) messages.
#[derive(Debug, Clone, Copy, PartialEq, Eq, Structural)]
pub enum UdpMsgType {
    PeerAnnounce,
    PeerBye,
    ChunkAvailable,
}

/// Kinds of TCP (transfer and P2P coordination) messages.
#[derive(Debug, Clone, Copy, PartialEq, Eq, Structural)]
pub enum TcpMsgType {
    TransferAnnounce,
    TransferAccepted,
    TransferRejected,
    ChunkRequest,
    ChunkResponse,
    TransferComplete,
    TransferError,
    /// BitTorrent-style "HAVE" message.
    HaveChunk,
}

/// Presence announcement of a peer that runs the application.
#[derive(Debug)]
pub struct PeerAnnounce {
    pub msg_type: UdpMsgType,
    pub peer_id: String,
    pub hostname: String,
    pub ip: String,
    pub tcp_port: u16,
    pub app_version: String,
    pub timestamp: u64,
}

/// A peer leaves the network.
#[derive(Debug)]
pub struct PeerBye {
    pub msg_type: UdpMsgType,
    pub peer_id: String,
    pub ip: String,
}

/// A receiver re-broadcasts which chunks it holds.
#[derive(Debug)]
pub struct ChunkAvailable {
    pub msg_type: UdpMsgType,
    pub transfer_id: String,
    pub peer_id: String,
    pub ip: String,
    pub tcp_port: u16,
    pub chunks: Vec<u32>,
}

/// A neighbour in the swarm of a transfer.
#[derive(Debug)]
pub struct SwarmPeer {
    pub peer_id: String,
    pub ip: String,
    pub tcp_port: u16,
}

impl Clone for SwarmPeer {
    fn clone(&self) -> (r: Self)
        ensures
            r == *self,
    {
        SwarmPeer { peer_id: self.peer_id.clone(), ip: self.ip.clone(), tcp_port: self.tcp_port }
    }
}

/// Announcement of a transfer, from the sender to each receiver.
#[derive(Debug)]
pub struct TransferAnnounce {
    pub msg_type: TcpMsgType,
    pub transfer_id: String,
    pub sender_peer_id: String,
    pub sender_ip: String,
    pub file_name: String,
    pub file_size: u64,
    pub total_chunks: u32,
    pub chunk_size: u32,
    /// SHA-1 (lower-case hex) of each chunk.
    pub chunk_hashes: Vec<String>,
    pub destination_path: String,
    /// Every peer taking part in this transfer (the swarm).
    pub swarm: Vec<SwarmPeer>,
}

/// A receiver accepts a transfer.
#[derive(Debug)]
pub struct TransferAccepted {
    pub msg_type: TcpMsgType,
    pub transfer_id: String,
    pub peer_id: String,
}

/// A receiver rejects a transfer.
#[derive(Debug)]
pub struct TransferRejected {
    pub msg_type: TcpMsgType,
    pub transfer_id: String,
    pub peer_id: String,
    pub reason: String,
}

/// Request for one chunk.
#[derive(Debug)]
pub struct ChunkRequest {
    pub msg_type: TcpMsgType,
    pub transfer_id: String,
    pub chunk_index: u32,
    pub requester_id: String,
}

/// Header of a chunk response; the chunk bytes travel as the frame's raw data.
#[derive(Debug)]
pub struct ChunkResponse {
    pub msg_type: TcpMsgType,
    pub transfer_id: String,
    pub chunk_index: u32,
    pub sha1_hash: String,
    pub chunk_size: u32,
}

/// "HAVE": a peer has completed a chunk. `ip` and `tcp_port` locate the
/// announcing peer in the swarm; messages of older versions lack them and
/// read as the empty string and 0.
#[derive(Debug)]
pub struct HaveChunk {
    pub msg_type: TcpMsgType,
    pub transfer_id: String,
    pub peer_id: String,
    pub ip: String,
    pub tcp_port: u16,
    pub chunk_index: u32,
}

/// A transfer completed.
#[derive(Debug)]
pub struct TransferComplete {
    pub msg_type: TcpMsgType,
    pub transfer_id: String,
    pub final_sha1: String,
}

/// A transfer failed.
#[derive(Debug)]
pub struct TransferError {
    pub msg_type: TcpMsgType,
    pub transfer_id: String,
    pub error: String,
}

/// Envelope read first from an incoming TCP message to dispatch on its kind;
/// the concrete message is then read again from the same bytes.
#[derive(Debug)]
pub struct TcpMsgEnvelope {
    pub msg_type: TcpMsgType,
}

} // verus!
