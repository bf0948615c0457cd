//! Chunk tracker: which peers hold which chunks of each transfer.
use crate::protocol::messages::SwarmPeer;
use std::collections::HashMap;
use vstd::prelude::*;

verus! {

broadcast use vstd::std_specs::hash::group_hash_axioms;

/// The peers recorded for chunk `idx`, empty when none is.
pub open spec fn peers_of(m: Map<u32, Seq<Seq<char>>>, idx: u32) -> Seq<Seq<char>> {
    if m.contains_key(idx) {
        m[idx]
    } else {
        Seq::empty()
    }
}

/// `m` after recording that `peer` holds chunk `idx` (appended to that chunk's list).
pub open spec fn with_peer_chunk(m: Map<u32, Seq<Seq<char>>>, peer: Seq<char>, idx: u32) -> Map<
    u32,
    Seq<Seq<char>>,
> {
    m.insert(idx, peers_of(m, idx).push(peer))
}

/// `m` after recording that `peer` holds each chunk of `chunks`, in order.
pub open spec fn with_peer_chunks(
    m: Map<u32, Seq<Seq<char>>>,
    peer: Seq<char>,
    chunks: Seq<u32>,
) -> Map<u32, Seq<Seq<char>>>
    decreases chunks.len(),
{
    if chunks.len() == 0 {
        m
    } else {
        with_peer_chunk(with_peer_chunks(m, peer, chunks.drop_last()), peer, chunks.last())
    }
}

/// Tracker entry of one transfer.
#[derive(Debug)]
pub struct TransferTrackerEntry {
    /// chunk index -> ids of the peers that hold it, in the order they were recorded.
    pub chunk_peers: HashMap<u32, Vec<String>>,
    /// The swarm of the transfer.
    pub swarm: Vec<SwarmPeer>,
    /// Rotation counter of the download-source choice, shared by all chunks
    /// of the transfer: how many choices have been made (modulo 2^64).
    pub turn: u64,
}

/// The holder chosen on rotation turn `turn`: position `turn mod n` of the
/// `n` recorded holders, so successive turns go round the holders.
pub open spec fn rotation_choice(holders: Seq<Seq<char>>, turn: u64) -> Seq<char> {
    holders[(turn % (holders.len() as u64)) as int]
}

/// The rotation counter after one more choice.
pub open spec fn next_turn(turn: u64) -> u64 {
    if turn == u64::MAX {
        0
    } else {
        (turn + 1) as u64
    }
}

impl View for TransferTrackerEntry {
    type V = Map<u32, Seq<Seq<char>>>;

    /// The chunk -> peers table, with each peer id as its characters.
    open spec fn view(&self) -> Map<u32, Seq<Seq<char>>> {
        Map::new(
            |k: u32| self.chunk_peers@.contains_key(k),
            |k: u32| self.chunk_peers@[k].deep_view(),
        )
    }
}

impl Default for TransferTrackerEntry {
    fn default() -> (e: Self)
        ensures
            e@ == Map::<u32, Seq<Seq<char>>>::empty(),
            e.swarm@ == Seq::<SwarmPeer>::empty(),
            e.turn == 0,
    {
        let e = TransferTrackerEntry { chunk_peers: HashMap::new(), swarm: Vec::new(), turn: 0 };
        assert(e@ =~= Map::<u32, Seq<Seq<char>>>::empty());
        e
    }
}

impl TransferTrackerEntry {
    /// Records that `peer_id` holds chunk `chunk_index`.
    pub fn add_peer_chunk(&mut self, peer_id: String, chunk_index: u32)
        ensures
            final(self)@ == with_peer_chunk(old(self)@, peer_id@, chunk_index),
            final(self).swarm == old(self).swarm,
            final(self).turn == old(self).turn,
    {
        let ghost before = self@;
        let mut peers = match self.chunk_peers.remove(&chunk_index) {
            Some(v) => v,
            None => Vec::new(),
        };
        let ghost prev = peers.deep_view();
        assert(prev =~= peers_of(before, chunk_index));
        peers.push(peer_id);
        assert(peers.deep_view() =~= prev.push(peer_id@));
        self.chunk_peers.insert(chunk_index, peers);
        assert(self@ =~= with_peer_chunk(before, peer_id@, chunk_index));
    }

    /// Records that `peer_ip` holds each chunk of `chunks`.
    pub fn add_peer_chunks(&mut self, peer_ip: String, chunks: Vec<u32>)
        ensures
            final(self)@ == with_peer_chunks(old(self)@, peer_ip@, chunks@),
            final(self).swarm == old(self).swarm,
            final(self).turn == old(self).turn,
    {
        let n = chunks.len();
        for i in 0..n
            invariant
                n == chunks@.len(),
                self@ == with_peer_chunks(old(self)@, peer_ip@, chunks@.take(i as int)),
                self.swarm == old(self).swarm,
                self.turn == old(self).turn,
        {
            assert(chunks@.take(i + 1).drop_last() =~= chunks@.take(i as int));
            self.add_peer_chunk(peer_ip.clone(), chunks[i]);
        }
        assert(chunks@.take(n as int) =~= chunks@);
    }

    /// The peers that hold chunk `chunk_index` (empty when none is recorded).
    pub fn get_peers_for_chunk(&self, chunk_index: u32) -> (peers: Vec<String>)
        ensures
            peers.deep_view() == peers_of(self@, chunk_index),
    {
        match self.chunk_peers.get(&chunk_index) {
            Some(v) => {
                let peers = v.clone();
                assert(peers.deep_view() =~= v.deep_view());
                peers
            },
            None => {
                let peers: Vec<String> = Vec::new();
                assert(peers.deep_view() =~= Seq::<Seq<char>>::empty());
                peers
            },
        }
    }

    /// The holder that serves chunk `chunk_index` next, by round-robin over
    /// its recorded holders: on rotation turn `t` the holder at position
    /// `t mod n` of the `n` holders, after which the turn advances. The turn
    /// is one counter for the whole transfer, so successive choices for one
    /// chunk go round its holders when no other chunk is chosen in between.
    /// `None`, with the turn unchanged, when nobody holds the chunk.
    pub fn best_peer_for_chunk(&mut self, chunk_index: u32) -> (peer: Option<String>)
        ensures
            final(self)@ == old(self)@,
            final(self).swarm == old(self).swarm,
            peer is None <==> peers_of(old(self)@, chunk_index).len() == 0,
            peer is None ==> final(self).turn == old(self).turn,
            peer matches Some(p) ==> p@ == rotation_choice(peers_of(old(self)@, chunk_index), old(self).turn)
                && final(self).turn == next_turn(old(self).turn),
    {
        let ghost before = self@;
        let turn = self.turn;
        let chosen = match self.chunk_peers.get(&chunk_index) {
            Some(v) => {
                let n = v.len();
                if n > 0 {
                    let pos = turn % (n as u64);
                    assert(pos < n);
                    proof {
                        assert(v.deep_view() == peers_of(before, chunk_index));
                    }
                    Some(v[pos as usize].clone())
                } else {
                    None
                }
            },
            None => None,
        };
        if chosen.is_some() {
            self.turn = if turn == u64::MAX {
                0
            } else {
                turn + 1
            };
        }
        assert(self@ =~= before);
        chosen
    }

    /// Replaces the swarm of the transfer.
    pub fn set_swarm(&mut self, swarm: Vec<SwarmPeer>)
        ensures
            final(self).swarm == swarm,
            final(self).chunk_peers == old(self).chunk_peers,
            final(self).turn == old(self).turn,
    {
        self.swarm = swarm;
    }
}

/// The round-robin choice spreads the load: with two or more holders, two
/// successive turns pick different positions (so different holders when
/// they are distinct), and each of the `n` holders is picked within the next
/// `n` turns (after `turns_until` more of them). The rotation counter must
/// not wrap meanwhile. The counter is shared by all chunks of a transfer, so
/// "successive turns" are successive choices of the transfer: for one chunk
/// this is the order of its choices when no other chunk's choice comes in
/// between; choices for other chunks in between move the rotation on too.
pub proof fn lemma_round_robin_spreads(holders: Seq<Seq<char>>, turn: u64)
    requires
        holders.len() >= 2,
        turn + holders.len() <= u64::MAX,
    ensures
        (turn % (holders.len() as u64)) != (next_turn(turn) % (holders.len() as u64)),
        (forall|a: int, b: int|
            0 <= a < holders.len() && 0 <= b < holders.len() && a != b ==> holders[a] != holders[b])
            ==> rotation_choice(holders, turn) != rotation_choice(holders, next_turn(turn)),
        forall|j: int|
            0 <= j < holders.len() ==> {
                let k = turns_until(holders.len() as int, turn as int, j);
                &&& 0 <= k < holders.len()
                &&& rotation_choice(holders, (turn + k) as u64) == #[trigger] holders[j]
            },
{
    let n = holders.len() as int;
    let t = turn as int;
    assert(next_turn(turn) == t + 1);
    assert((t % n) != ((t + 1) % n)) by (nonlinear_arith)
        requires
            n >= 2,
            t >= 0,
    {
        assert(t == n * (t / n) + t % n);
        assert(t + 1 == n * ((t + 1) / n) + (t + 1) % n);
    }
    assert forall|j: int| 0 <= j < holders.len() implies {
        let k = turns_until(holders.len() as int, turn as int, j);
        &&& 0 <= k < holders.len()
        &&& rotation_choice(holders, (turn + k) as u64) == #[trigger] holders[j]
    } by {
        let k = lemma_rotation_reaches(n, t, j);
        assert(((turn + k) as u64) as int == t + k);
        assert(rotation_choice(holders, (turn + k) as u64) == holders[j]);
    }
}

/// How many more turns, from rotation turn `turn`, until position `j` of
/// `n` holders is picked.
pub open spec fn turns_until(n: int, turn: int, j: int) -> int {
    (j - turn % n + n) % n
}

proof fn lemma_rotation_reaches(n: int, t: int, j: int) -> (k: int)
    requires
        n >= 1,
        t >= 0,
        0 <= j < n,
    ensures
        k == turns_until(n, t, j),
        0 <= k < n,
        (t + k) % n == j,
{
    let q = t / n;
    let r = t % n;
    vstd::arithmetic::div_mod::lemma_fundamental_div_mod(t, n);
    assert(0 <= r < n);
    if j >= r {
        let k = j - r;
        assert(t + k == q * n + j) by (nonlinear_arith)
            requires
                t == n * q + r,
                k == j - r,
        ;
        vstd::arithmetic::div_mod::lemma_fundamental_div_mod_converse(t + k, n, q, j);
        vstd::arithmetic::div_mod::lemma_fundamental_div_mod_converse(j - r + n, n, 1, k);
        k
    } else {
        let k = j - r + n;
        assert(t + k == (q + 1) * n + j) by (nonlinear_arith)
            requires
                t == n * q + r,
                k == j - r + n,
        ;
        vstd::arithmetic::div_mod::lemma_fundamental_div_mod_converse(t + k, n, q + 1, j);
        vstd::arithmetic::div_mod::lemma_fundamental_div_mod_converse(j - r + n, n, 0, k);
        k
    }
}

/// The map described by tracked ids and their entries (a later id wins).
spec fn map_of(ids: Seq<String>, entries: Seq<TransferTrackerEntry>) -> Map<
    Seq<char>,
    TransferTrackerEntry,
>
    decreases ids.len(),
{
    if ids.len() == 0 || entries.len() == 0 {
        Map::empty()
    } else {
        map_of(ids.drop_last(), entries.drop_last()).insert(ids.last()@, entries.last())
    }
}

spec fn ids_distinct(ids: Seq<String>) -> bool {
    forall|i: int, j: int| 0 <= i < ids.len() && 0 <= j < ids.len() && i != j ==> ids[i]@ != ids[j]@
}

proof fn lemma_map_of_dom(ids: Seq<String>, entries: Seq<TransferTrackerEntry>, k: Seq<char>)
    requires
        ids.len() == entries.len(),
    ensures
        map_of(ids, entries).contains_key(k) <==> exists|i: int| 0 <= i < ids.len() && ids[i]@ == k,
    decreases ids.len(),
{
    if ids.len() > 0 {
        lemma_map_of_dom(ids.drop_last(), entries.drop_last(), k);
        if map_of(ids, entries).contains_key(k) && k != ids.last()@ {
            let i = choose|i: int| 0 <= i < ids.len() - 1 && ids.drop_last()[i]@ == k;
            assert(ids[i]@ == k);
        }
        if exists|i: int| 0 <= i < ids.len() && ids[i]@ == k {
            let i = choose|i: int| 0 <= i < ids.len() && ids[i]@ == k;
            if i < ids.len() - 1 {
                assert(ids.drop_last()[i]@ == k);
            }
        }
    }
}

proof fn lemma_map_of_value(ids: Seq<String>, entries: Seq<TransferTrackerEntry>, i: int)
    requires
        ids.len() == entries.len(),
        ids_distinct(ids),
        0 <= i < ids.len(),
    ensures
        map_of(ids, entries).contains_key(ids[i]@),
        map_of(ids, entries)[ids[i]@] == entries[i],
    decreases ids.len(),
{
    if i < ids.len() - 1 {
        assert(ids.drop_last()[i] == ids[i]);
        assert(entries.drop_last()[i] == entries[i]);
        lemma_map_of_value(ids.drop_last(), entries.drop_last(), i);
    }
}

proof fn lemma_map_of_update(
    ids: Seq<String>,
    entries: Seq<TransferTrackerEntry>,
    i: int,
    e: TransferTrackerEntry,
)
    requires
        ids.len() == entries.len(),
        ids_distinct(ids),
        0 <= i < ids.len(),
    ensures
        map_of(ids, entries.update(i, e)) == map_of(ids, entries).insert(ids[i]@, e),
    decreases ids.len(),
{
    let u = entries.update(i, e);
    if i == ids.len() - 1 {
        assert(u.drop_last() =~= entries.drop_last());
        assert(map_of(ids, u) =~= map_of(ids, entries).insert(ids[i]@, e));
    } else {
        assert(u.drop_last() =~= entries.drop_last().update(i, e));
        assert(ids.drop_last()[i] == ids[i]);
        lemma_map_of_update(ids.drop_last(), entries.drop_last(), i, e);
        assert(ids.last()@ != ids[i]@);
        assert(map_of(ids, u) =~= map_of(ids, entries).insert(ids[i]@, e));
    }
}

proof fn lemma_map_of_remove(ids: Seq<String>, entries: Seq<TransferTrackerEntry>, i: int)
    requires
        ids.len() == entries.len(),
        ids_distinct(ids),
        0 <= i < ids.len(),
    ensures
        map_of(ids.remove(i), entries.remove(i)) == map_of(ids, entries).remove(ids[i]@),
        ids_distinct(ids.remove(i)),
    decreases ids.len(),
{
    let k = ids[i]@;
    if i == ids.len() - 1 {
        assert(ids.remove(i) =~= ids.drop_last());
        assert(entries.remove(i) =~= entries.drop_last());
        lemma_map_of_dom(ids.drop_last(), entries.drop_last(), k);
        assert(!map_of(ids.drop_last(), entries.drop_last()).contains_key(k));
        assert(map_of(ids.remove(i), entries.remove(i)) =~= map_of(ids, entries).remove(k));
    } else {
        assert(ids.remove(i).drop_last() =~= ids.drop_last().remove(i));
        assert(entries.remove(i).drop_last() =~= entries.drop_last().remove(i));
        assert(ids.remove(i).last() == ids.last());
        assert(entries.remove(i).last() == entries.last());
        assert(ids.drop_last()[i] == ids[i]);
        lemma_map_of_remove(ids.drop_last(), entries.drop_last(), i);
        assert(ids.last()@ != k);
        assert(map_of(ids.remove(i), entries.remove(i)) =~= map_of(ids, entries).remove(k));
    }
    assert forall|a: int, b: int|
        0 <= a < ids.remove(i).len() && 0 <= b < ids.remove(i).len() && a != b implies ids.remove(
        i,
    )[a]@ != ids.remove(i)[b]@ by {
        let a2 = if a < i {
            a
        } else {
            a + 1
        };
        let b2 = if b < i {
            b
        } else {
            b + 1
        };
        assert(ids.remove(i)[a] == ids[a2]);
        assert(ids.remove(i)[b] == ids[b2]);
    }
}

/// Tracker of every transfer, by transfer id.
#[derive(Debug)]
pub struct TransferTracker {
    ids: Vec<String>,
    entries: Vec<TransferTrackerEntry>,
}

impl View for TransferTracker {
    type V = Map<Seq<char>, TransferTrackerEntry>;

    /// The entry of each tracked transfer, by the characters of its id.
    closed spec fn view(&self) -> Map<Seq<char>, TransferTrackerEntry> {
        map_of(self.ids@, self.entries@)
    }
}

impl Default for TransferTracker {
    fn default() -> (t: Self)
        ensures
            t.wf(),
            t@ == Map::<Seq<char>, TransferTrackerEntry>::empty(),
    {
        TransferTracker::new()
    }
}

impl TransferTracker {
    /// Each transfer id is tracked once.
    pub closed spec fn wf(&self) -> bool {
        &&& self.ids@.len() == self.entries@.len()
        &&& ids_distinct(self.ids@)
    }

    /// An empty tracker.
    pub fn new() -> (t: Self)
        ensures
            t.wf(),
            t@ == Map::<Seq<char>, TransferTrackerEntry>::empty(),
    {
        TransferTracker { ids: Vec::new(), entries: Vec::new() }
    }

    fn find(&self, transfer_id: &String) -> (idx: Option<usize>)
        requires
            self.wf(),
        ensures
            idx matches Some(i) ==> i < self.ids@.len() && self.ids@[i as int]@ == transfer_id@,
            idx is None ==> !self@.contains_key(transfer_id@),
    {
        let n = self.ids.len();
        for i in 0..n
            invariant
                n == self.ids@.len(),
                forall|j: int| 0 <= j < i ==> self.ids@[j]@ != transfer_id@,
        {
            if self.ids[i] == *transfer_id {
                return Some(i);
            }
        }
        proof {
            lemma_map_of_dom(self.ids@, self.entries@, transfer_id@);
        }
        None
    }

    /// The entry of `transfer_id`, if it is tracked.
    pub fn get(&self, transfer_id: &str) -> (entry: Option<&TransferTrackerEntry>)
        requires
            self.wf(),
        ensures
            entry is None <==> !self@.contains_key(transfer_id@),
            entry matches Some(e) ==> *e == self@[transfer_id@],
    {
        let key = transfer_id.to_owned();
        match self.find(&key) {
            Some(i) => {
                proof {
                    lemma_map_of_value(self.ids@, self.entries@, i as int);
                }
                Some(&self.entries[i])
            },
            None => None,
        }
    }

    /// The entry of `transfer_id`, created empty when it is not tracked yet.
    pub fn get_or_create(&mut self, transfer_id: &str) -> (entry: &mut TransferTrackerEntry)
        requires
            old(self).wf(),
        ensures
            final(self).wf(),
            old(self)@.contains_key(transfer_id@) ==> *entry == old(self)@[transfer_id@],
            !old(self)@.contains_key(transfer_id@) ==> entry@ == Map::<
                u32,
                Seq<Seq<char>>,
            >::empty() && entry.swarm@ == Seq::<SwarmPeer>::empty() && entry.turn == 0,
            final(self)@ == old(self)@.insert(transfer_id@, *final(entry)),
    {
        let key = transfer_id.to_owned();
        let idx = match self.find(&key) {
            Some(i) => i,
            None => {
                proof {
                    lemma_map_of_dom(self.ids@, self.entries@, key@);
                }
                self.ids.push(key);
                self.entries.push(TransferTrackerEntry::default());
                proof {
                    assert(self.ids@.drop_last() == old(self).ids@);
                    assert(self.entries@.drop_last() == old(self).entries@);
                }
                self.entries.len() - 1
            },
        };
        proof {
            lemma_map_of_value(self.ids@, self.entries@, idx as int);
        }
        let ghost ids = self.ids@;
        let ghost before = self.entries@;
        proof {
            assert forall|e: TransferTrackerEntry|
                map_of(ids, #[trigger] before.update(idx as int, e)) == map_of(ids, before).insert(
                    ids[idx as int]@,
                    e,
                ) by {
                lemma_map_of_update(ids, before, idx as int, e);
            }
        }
        &mut self.entries[idx]
    }

    /// Stops tracking `transfer_id`.
    pub fn remove(&mut self, transfer_id: &str)
        requires
            old(self).wf(),
        ensures
            final(self).wf(),
            final(self)@ == old(self)@.remove(transfer_id@),
    {
        let key = transfer_id.to_owned();
        match self.find(&key) {
            Some(i) => {
                proof {
                    lemma_map_of_remove(self.ids@, self.entries@, i as int);
                }
                self.ids.remove(i);
                self.entries.remove(i);
            },
            None => {
                assert(self@ =~= self@.remove(transfer_id@));
            },
        }
    }
}

} // verus!
