//! Shared application records: known peers, active transfers and settings.
use crate::protocol::messages::{SwarmPeer, TransferAnnounce};
use crate::transfer::chunker::{ceil_div, chunk_map_spec, ChunkMapBuilder};
use vstd::prelude::*;

verus! {

/// Kind of a peer on the network.
#[derive(Debug, Clone, Copy, PartialEq, Eq, Structural)]
pub enum PeerKind {
    /// Runs the application (answers on its TCP port).
    App,
    /// A machine without the application, found by scanning.
    NonApp,
}

/// A peer in the registry.
#[derive(Debug, Clone)]
pub struct PeerEntry {
    pub peer_id: String,
    pub hostname: String,
    pub ip: String,
    pub mac_address: Option<String>,
    pub tcp_port: u16,
    pub kind: PeerKind,
    /// Epoch seconds.
    pub last_seen: u64,
    pub online: bool,
    pub app_version: Option<String>,
}

/// Role in a transfer.
#[derive(Debug, Clone, Copy, PartialEq, Eq, Structural)]
pub enum TransferRole {
    Sender,
    Receiver,
}

/// State of a transfer.
#[derive(Debug, Clone)]
pub enum TransferStatus {
    Pending,
    InProgress,
    Completed,
    Failed(String),
    Cancelled,
}

/// An active transfer, on the sender or on a receiver.
#[derive(Debug, Clone)]
pub struct ActiveTransfer {
    pub transfer_id: String,
    pub file_name: String,
    pub file_path: String,
    pub file_size: u64,
    pub total_chunks: u32,
    pub chunk_size: u32,
    /// SHA-1 of each chunk, lower-case hex.
    pub chunk_hashes: Vec<String>,
    pub destination_path: String,
    pub role: TransferRole,
    pub chunks_done: Vec<bool>,
    pub status: TransferStatus,
    /// Destination peer ids (on the sender).
    pub target_peers: Vec<String>,
    /// Peers of the swarm.
    pub swarm: Vec<SwarmPeer>,
    pub sender_ip: String,
    pub sender_peer_id: String,
    pub bytes_transferred: u64,
    /// Epoch seconds.
    pub started_at: u64,
}

/// How many entries of `s` are `true`.
pub open spec fn count_true(s: Seq<bool>) -> nat
    decreases s.len(),
{
    if s.len() == 0 {
        0
    } else {
        count_true(s.drop_last()) + if s.last() {
            1nat
        } else {
            0nat
        }
    }
}

/// `count_true` stays within the length, and reaches it exactly when every entry is `true`.
pub proof fn lemma_count_true_bounds(s: Seq<bool>)
    ensures
        count_true(s) <= s.len(),
        count_true(s) == s.len() <==> forall|i: int| 0 <= i < s.len() ==> s[i],
    decreases s.len(),
{
    if s.len() > 0 {
        lemma_count_true_bounds(s.drop_last());
        if count_true(s) == s.len() {
            assert forall|i: int| 0 <= i < s.len() implies s[i] by {
                if i < s.len() - 1 {
                    assert(s.drop_last()[i] == s[i]);
                }
            }
        }
        if forall|i: int| 0 <= i < s.len() ==> s[i] {
            assert forall|i: int| 0 <= i < s.drop_last().len() implies s.drop_last()[i] by {
                assert(s[i]);
            }
        }
    }
}

/// Marking one entry `true` adds one to the count when it was `false`,
/// and nothing when it already was `true`.
pub proof fn lemma_count_true_mark(s: Seq<bool>, i: int)
    requires
        0 <= i < s.len(),
    ensures
        count_true(s.update(i, true)) == count_true(s) + if s[i] {
            0nat
        } else {
            1nat
        },
    decreases s.len(),
{
    let u = s.update(i, true);
    if i == s.len() - 1 {
        assert(u.drop_last() =~= s.drop_last());
    } else {
        assert(u.drop_last() =~= s.drop_last().update(i, true));
        lemma_count_true_mark(s.drop_last(), i);
    }
}

impl ActiveTransfer {
    /// How many chunks are done (modulo 2^32).
    pub fn chunks_completed(&self) -> (n: u32)
        ensures
            n == #[verifier::truncate] (count_true(self.chunks_done@) as u32),
    {
        let mut count: usize = 0;
        let len = self.chunks_done.len();
        for i in 0..len
            invariant
                len == self.chunks_done@.len(),
                count == count_true(self.chunks_done@.take(i as int)),
                count <= i,
        {
            assert(self.chunks_done@.take(i + 1).drop_last() =~= self.chunks_done@.take(i as int));
            if self.chunks_done[i] {
                count = count + 1;
            }
        }
        assert(self.chunks_done@.take(len as int) =~= self.chunks_done@);
        #[verifier::truncate]
        let n = count as u32;
        n
    }

    /// Whether chunk `chunk_index` is already held.
    pub fn has_chunk(&self, chunk_index: u32) -> (done: bool)
        requires
            chunk_index < self.chunks_done@.len(),
        ensures
            done == self.chunks_done@[chunk_index as int],
    {
        self.chunks_done[chunk_index as usize]
    }

    /// What serving chunk `chunk_index` to a peer needs: the file path, the
    /// chunk size and the chunk's expected hash, or `None` when the chunk is
    /// not held yet (the peer then asks again later).
    pub fn chunk_to_serve(&self, chunk_index: u32) -> (r: Option<(String, u32, String)>)
        requires
            chunk_index < self.chunks_done@.len(),
            self.chunks_done@[chunk_index as int] ==> chunk_index < self.chunk_hashes@.len(),
        ensures
            r is None <==> !self.chunks_done@[chunk_index as int],
            r matches Some((path, size, hash)) ==> path == self.file_path && size
                == self.chunk_size && hash == self.chunk_hashes@[chunk_index as int],
    {
        if !self.chunks_done[chunk_index as usize] {
            return None;
        }
        Some(
            (
                self.file_path.clone(),
                self.chunk_size,
                self.chunk_hashes[chunk_index as usize].clone(),
            ),
        )
    }

    /// Records a downloaded chunk of `n_bytes` bytes. Returns whether the
    /// transfer is now complete, how many chunks are done and how many bytes
    /// have arrived so far.
    pub fn mark_chunk_done(&mut self, chunk_index: u32, n_bytes: u64) -> (r: (bool, u32, u64))
        requires
            chunk_index < old(self).chunks_done@.len(),
            old(self).bytes_transferred + n_bytes <= u64::MAX,
        ensures
            final(self).chunks_done@ == old(self).chunks_done@.update(chunk_index as int, true),
            final(self).bytes_transferred == old(self).bytes_transferred + n_bytes,
            r.1 == #[verifier::truncate] (count_true(final(self).chunks_done@) as u32),
            r.0 == (r.1 == final(self).total_chunks),
            r.2 == final(self).bytes_transferred,
            final(self).transfer_id == old(self).transfer_id,
            final(self).file_name == old(self).file_name,
            final(self).file_path == old(self).file_path,
            final(self).file_size == old(self).file_size,
            final(self).total_chunks == old(self).total_chunks,
            final(self).chunk_size == old(self).chunk_size,
            final(self).chunk_hashes == old(self).chunk_hashes,
            final(self).destination_path == old(self).destination_path,
            final(self).role == old(self).role,
            final(self).status == old(self).status,
            final(self).target_peers == old(self).target_peers,
            final(self).swarm == old(self).swarm,
            final(self).sender_ip == old(self).sender_ip,
            final(self).sender_peer_id == old(self).sender_peer_id,
            final(self).started_at == old(self).started_at,
    {
        self.chunks_done.set(chunk_index as usize, true);
        self.bytes_transferred = self.bytes_transferred + n_bytes;
        let done = self.chunks_completed();
        let complete = done == self.total_chunks;
        (complete, done, self.bytes_transferred)
    }

    /// The record a receiver keeps for an announced transfer, saved at
    /// `file_path`: no chunk held yet, in progress.
    pub fn receiving(announce: &TransferAnnounce, file_path: String, started_at: u64) -> (t:
        ActiveTransfer)
        ensures
            t.transfer_id@ == announce.transfer_id@,
            t.file_name@ == announce.file_name@,
            t.file_path == file_path,
            t.file_size == announce.file_size,
            t.total_chunks == announce.total_chunks,
            t.chunk_size == announce.chunk_size,
            t.chunk_hashes@ == announce.chunk_hashes@,
            t.destination_path@ == announce.destination_path@,
            t.role == TransferRole::Receiver,
            t.chunks_done@ == Seq::new(announce.total_chunks as nat, |i: int| false),
            t.status is InProgress,
            t.target_peers@.len() == 0,
            t.swarm@ == announce.swarm@,
            t.sender_ip@ == announce.sender_ip@,
            t.sender_peer_id@ == announce.sender_peer_id@,
            t.bytes_transferred == 0,
            t.started_at == started_at,
    {
        let chunks_done = vec![false; announce.total_chunks as usize];
        let chunk_hashes = announce.chunk_hashes.clone();
        let swarm = announce.swarm.clone();
        assert(chunk_hashes@ =~= announce.chunk_hashes@);
        assert(swarm@ =~= announce.swarm@);
        assert(chunks_done@ =~= Seq::new(announce.total_chunks as nat, |i: int| false));
        ActiveTransfer {
            transfer_id: announce.transfer_id.clone(),
            file_name: announce.file_name.clone(),
            file_path,
            file_size: announce.file_size,
            total_chunks: announce.total_chunks,
            chunk_size: announce.chunk_size,
            chunk_hashes,
            destination_path: announce.destination_path.clone(),
            role: TransferRole::Receiver,
            chunks_done,
            status: TransferStatus::InProgress,
            target_peers: Vec::new(),
            swarm,
            sender_ip: announce.sender_ip.clone(),
            sender_peer_id: announce.sender_peer_id.clone(),
            bytes_transferred: 0,
            started_at,
        }
    }

    /// The record the sender keeps for a transfer it starts, from the chunk
    /// map of the file it read: it is the seed, so every chunk is held and the
    /// whole file counts as transferred; size, chunk count, chunk size and
    /// chunk hashes are those of the map. It is in progress until the swarm
    /// has been told (`mark_completed`).
    pub fn seeding(
        map: ChunkMapBuilder,
        transfer_id: String,
        file_name: String,
        file_path: String,
        destination_path: String,
        target_peers: Vec<String>,
        swarm: Vec<SwarmPeer>,
        sender_ip: String,
        sender_peer_id: String,
        started_at: u64,
    ) -> (t: ActiveTransfer)
        requires
            map.wf(),
        ensures
            t.transfer_id == transfer_id,
            t.file_name == file_name,
            t.file_path == file_path,
            t.file_size == map@.len(),
            t.total_chunks == ceil_div(map@.len() as int, map.chunk_len() as int),
            t.chunk_size == map.chunk_len(),
            t.chunk_hashes.deep_view() == chunk_map_spec(map@, map.chunk_len() as int),
            t.destination_path == destination_path,
            t.role == TransferRole::Sender,
            t.chunks_done@ == Seq::new(t.total_chunks as nat, |i: int| true),
            t.status is InProgress,
            t.target_peers == target_peers,
            t.swarm == swarm,
            t.sender_ip == sender_ip,
            t.sender_peer_id == sender_peer_id,
            t.bytes_transferred == map@.len(),
            t.started_at == started_at,
    {
        let chunk_size = map.chunk_size();
        let (file_size, total_chunks, chunk_hashes) = map.into_parts();
        let chunks_done = vec![true; total_chunks as usize];
        assert(chunks_done@ =~= Seq::new(total_chunks as nat, |i: int| true));
        ActiveTransfer {
            transfer_id,
            file_name,
            file_path,
            file_size,
            total_chunks,
            chunk_size,
            chunk_hashes,
            destination_path,
            role: TransferRole::Sender,
            chunks_done,
            status: TransferStatus::InProgress,
            target_peers,
            swarm,
            sender_ip,
            sender_peer_id,
            bytes_transferred: file_size,
            started_at,
        }
    }

    /// Marks the transfer completed (the sender does so once the swarm has
    /// been told); nothing else changes.
    pub fn mark_completed(&mut self)
        ensures
            final(self).status is Completed,
            final(self).transfer_id == old(self).transfer_id,
            final(self).file_name == old(self).file_name,
            final(self).file_path == old(self).file_path,
            final(self).file_size == old(self).file_size,
            final(self).total_chunks == old(self).total_chunks,
            final(self).chunk_size == old(self).chunk_size,
            final(self).chunk_hashes == old(self).chunk_hashes,
            final(self).destination_path == old(self).destination_path,
            final(self).role == old(self).role,
            final(self).chunks_done == old(self).chunks_done,
            final(self).target_peers == old(self).target_peers,
            final(self).swarm == old(self).swarm,
            final(self).sender_ip == old(self).sender_ip,
            final(self).sender_peer_id == old(self).sender_peer_id,
            final(self).bytes_transferred == old(self).bytes_transferred,
            final(self).started_at == old(self).started_at,
    {
        self.status = TransferStatus::Completed;
    }

}

/// A downloaded chunk, recorded on a transfer, is held from then on; the
/// done count grows by one exactly when the chunk was new, and the transfer
/// reports complete once every one of its `total_chunks` chunks is held.
pub proof fn lemma_mark_chunk_progress(chunks_done: Seq<bool>, chunk_index: int, total_chunks: u32)
    requires
        0 <= chunk_index < chunks_done.len(),
        chunks_done.len() == total_chunks,
    ensures
        chunks_done.update(chunk_index, true)[chunk_index],
        count_true(chunks_done.update(chunk_index, true)) == count_true(chunks_done) + if chunks_done[chunk_index] {
            0nat
        } else {
            1nat
        },
        (count_true(chunks_done.update(chunk_index, true)) as u32 == total_chunks) <==> forall|
            i: int,
        | 0 <= i < chunks_done.len() ==> #[trigger] chunks_done.update(chunk_index, true)[i],
{
    lemma_count_true_mark(chunks_done, chunk_index);
    lemma_count_true_bounds(chunks_done.update(chunk_index, true));
}

/// Persisted application settings.
#[derive(Debug, Clone)]
pub struct AppConfig {
    pub default_destination: String,
    pub max_concurrent_chunks: usize,
    pub auto_accept_transfers: bool,
    pub minimize_to_tray: bool,
    pub autostart: bool,
}

impl Default for AppConfig {
    fn default() -> (c: Self)
        ensures
            c.default_destination@ == "C:\\Descargas"@,
            c.max_concurrent_chunks == 4,
            c.auto_accept_transfers,
            c.minimize_to_tray,
            !c.autostart,
    {
        AppConfig {
            default_destination: "C:\\Descargas".to_owned(),
            max_concurrent_chunks: 4,
            auto_accept_transfers: true,
            minimize_to_tray: true,
            autostart: false,
        }
    }
}

} // verus!
