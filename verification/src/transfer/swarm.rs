//! Swarm decisions of the sender and the receivers: who is in the swarm,
//! who is told of a new chunk, and what the tracker records when a
//! transfer is announced, seeded or a peer reports a chunk.
use crate::protocol::messages::{HaveChunk, SwarmPeer, TransferAnnounce};
use crate::state::PeerEntry;
use crate::transfer::tracker::{
    next_turn, rotation_choice,
    peers_of, with_peer_chunk, with_peer_chunks, TransferTracker, TransferTrackerEntry,
};
use vstd::prelude::*;

verus! {

/// The chunk indices `0, 1, .., n - 1`.
pub open spec fn chunk_range(n: u32) -> Seq<u32> {
    Seq::new(n as nat, |i: int| i as u32)
}

/// The peers of `swarm` other than `my_peer_id`, in swarm order.
pub open spec fn others(swarm: Seq<SwarmPeer>, my_peer_id: Seq<char>) -> Seq<SwarmPeer>
    decreases swarm.len(),
{
    if swarm.len() == 0 {
        Seq::empty()
    } else if swarm.last().peer_id@ == my_peer_id {
        others(swarm.drop_last(), my_peer_id)
    } else {
        others(swarm.drop_last(), my_peer_id).push(swarm.last())
    }
}

/// The peers that receive a "HAVE" for a new chunk: every swarm member but this peer.
pub fn have_recipients(swarm: &Vec<SwarmPeer>, my_peer_id: &str) -> (peers: Vec<SwarmPeer>)
    ensures
        peers@ == others(swarm@, my_peer_id@),
{
    let me = my_peer_id.to_owned();
    let mut peers: Vec<SwarmPeer> = Vec::new();
    let n = swarm.len();
    for i in 0..n
        invariant
            n == swarm@.len(),
            me@ == my_peer_id@,
            peers@ == others(swarm@.take(i as int), my_peer_id@),
    {
        assert(swarm@.take(i + 1).drop_last() =~= swarm@.take(i as int));
        if !(swarm[i].peer_id == me) {
            peers.push(swarm[i].clone());
        }
    }
    assert(swarm@.take(n as int) =~= swarm@);
    peers
}

/// The "HAVE" recipients are exactly the swarm members that are not this
/// peer, each as often and in the order the swarm lists it.
pub proof fn lemma_others(swarm: Seq<SwarmPeer>, me: Seq<char>)
    ensures
        forall|i: int| 0 <= i < others(swarm, me).len() ==> (#[trigger] others(swarm, me)[i]).peer_id@ != me,
        others(swarm, me) == swarm.filter(|p: SwarmPeer| p.peer_id@ != me),
    decreases swarm.len(),
{
    reveal(Seq::filter);
    if swarm.len() > 0 {
        lemma_others(swarm.drop_last(), me);
        let o = others(swarm.drop_last(), me);
        assert forall|i: int| 0 <= i < others(swarm, me).len() implies (#[trigger] others(swarm, me)[i]).peer_id@ != me by {
            if i < o.len() {
                assert(others(swarm, me)[i] == o[i]);
            }
        }
    }
}

/// The swarm members made of the targets that were found: target `i`, when
/// `found[i]` holds its peer record, joins with that record's address.
pub open spec fn found_members(targets: Seq<String>, found: Seq<Option<PeerEntry>>) -> Seq<
    SwarmPeer,
>
    decreases targets.len(),
{
    if targets.len() == 0 || found.len() == 0 {
        Seq::empty()
    } else {
        let rest = found_members(targets.drop_last(), found.drop_last());
        match found.last() {
            Some(p) => rest.push(
                SwarmPeer { peer_id: targets.last(), ip: p.ip, tcp_port: p.tcp_port },
            ),
            None => rest,
        }
    }
}

/// The swarm of a new transfer: the sender itself first (the seed), then
/// each target peer whose record was found, with its address.
pub fn build_swarm(seed: SwarmPeer, target_peer_ids: &Vec<String>, found: &Vec<Option<PeerEntry>>) -> (swarm: Vec<SwarmPeer>)
    requires
        target_peer_ids@.len() == found@.len(),
    ensures
        swarm@ == seq![seed] + found_members(target_peer_ids@, found@),
{
    let mut swarm: Vec<SwarmPeer> = Vec::new();
    swarm.push(seed);
    let n = target_peer_ids.len();
    for i in 0..n
        invariant
            n == target_peer_ids@.len(),
            n == found@.len(),
            swarm@ == seq![seed] + found_members(
                target_peer_ids@.take(i as int),
                found@.take(i as int),
            ),
    {
        assert(target_peer_ids@.take(i + 1).drop_last() =~= target_peer_ids@.take(i as int));
        assert(found@.take(i + 1).drop_last() =~= found@.take(i as int));
        match &found[i] {
            Some(p) => {
                swarm.push(
                    SwarmPeer {
                        peer_id: target_peer_ids[i].clone(),
                        ip: p.ip.clone(),
                        tcp_port: p.tcp_port,
                    },
                );
            },
            None => {},
        }
        assert(swarm@ =~= seq![seed] + found_members(
            target_peer_ids@.take(i + 1),
            found@.take(i + 1),
        ));
    }
    assert(target_peer_ids@.take(n as int) =~= target_peer_ids@);
    assert(found@.take(n as int) =~= found@);
    swarm
}

/// The member of `swarm` whose id is `peer_id` (the first such), if any.
pub fn swarm_peer_by_id(swarm: &Vec<SwarmPeer>, peer_id: &str) -> (peer: Option<SwarmPeer>)
    ensures
        peer is None <==> forall|i: int| 0 <= i < swarm@.len() ==> swarm@[i].peer_id@ != peer_id@,
        peer matches Some(p) ==> exists|i: int|
            0 <= i < swarm@.len() && swarm@[i] == p && p.peer_id@ == peer_id@ && forall|j: int|
                0 <= j < i ==> swarm@[j].peer_id@ != peer_id@,
{
    let key = peer_id.to_owned();
    let n = swarm.len();
    for i in 0..n
        invariant
            n == swarm@.len(),
            key@ == peer_id@,
            forall|j: int| 0 <= j < i ==> swarm@[j].peer_id@ != peer_id@,
    {
        if swarm[i].peer_id == key {
            let p = swarm[i].clone();
            assert(swarm@[i as int] == p);
            return Some(p);
        }
    }
    None
}

/// Whether some member of `swarm` has the id `id`.
pub open spec fn in_swarm(swarm: Seq<SwarmPeer>, id: Seq<char>) -> bool {
    exists|i: int| 0 <= i < swarm.len() && swarm[i].peer_id@ == id
}

/// `p` is the first member of `swarm` whose id is `id`.
pub open spec fn first_member(swarm: Seq<SwarmPeer>, id: Seq<char>, p: SwarmPeer) -> bool {
    exists|i: int|
        0 <= i < swarm.len() && swarm[i] == p && p.peer_id@ == id && forall|j: int|
            0 <= j < i ==> swarm[j].peer_id@ != id
}

/// The position of the `k`-th holder tried when going round `n` holders
/// from position `start`.
pub open spec fn round_pos(n: int, start: int, k: int) -> int {
    if start + k < n {
        start + k
    } else {
        start + k - n
    }
}

/// Where a receiver downloads chunk `chunk_index` from, spreading the load
/// over the chunk's holders: starting at the rotation position (turn `t`
/// picks position `t mod n` of the `n` holders, as `best_peer_for_chunk`
/// does) and going round the holders, the first one that is a member of the
/// transfer's swarm, as that member (the first with its id). `None` exactly
/// when no holder of the chunk is in the swarm. The chunk table and the swarm
/// are left as they were; the rotation advances when the chunk has holders.
pub fn download_source(entry: &mut TransferTrackerEntry, chunk_index: u32) -> (peer: Option<SwarmPeer>)
    ensures
        final(entry)@ == old(entry)@,
        final(entry).swarm == old(entry).swarm,
        ({
            let holders = peers_of(old(entry)@, chunk_index);
            let n = holders.len() as int;
            let start = (old(entry).turn % (n as u64)) as int;
            &&& n == 0 ==> final(entry).turn == old(entry).turn
            &&& n > 0 ==> final(entry).turn == next_turn(old(entry).turn)
            &&& peer is None <==> forall|j: int|
                0 <= j < n ==> !in_swarm(old(entry).swarm@, #[trigger] holders[j])
            &&& peer matches Some(p) ==> exists|k: int|
                0 <= k < n && first_member(old(entry).swarm@, holders[round_pos(n, start, k)], p)
                    && forall|k2: int|
                    0 <= k2 < k ==> !in_swarm(
                        old(entry).swarm@,
                        #[trigger] holders[round_pos(n, start, k2)],
                    )
            &&& n > 0 && in_swarm(old(entry).swarm@, rotation_choice(holders, old(entry).turn))
                ==> (peer matches Some(p) && first_member(
                old(entry).swarm@,
                rotation_choice(holders, old(entry).turn),
                p,
            ))
        }),
{
    let holders = entry.get_peers_for_chunk(chunk_index);
    let ghost hs = holders.deep_view();
    let n = holders.len();
    if n == 0 {
        return None;
    }
    let start = (entry.turn % (n as u64)) as usize;
    entry.turn = if entry.turn == u64::MAX {
        0
    } else {
        entry.turn + 1
    };
    let mut k: usize = 0;
    while k < n
        invariant
            n == holders@.len(),
            n == hs.len(),
            hs == holders.deep_view(),
            hs == peers_of(old(entry)@, chunk_index),
            start == old(entry).turn % (n as u64),
            start < n,
            k <= n,
            entry@ == old(entry)@,
            entry.swarm == old(entry).swarm,
            entry.turn == next_turn(old(entry).turn),
            forall|k2: int|
                0 <= k2 < k ==> !in_swarm(entry.swarm@, #[trigger] hs[round_pos(n as int, start as int, k2)]),
        decreases n - k,
    {
        let pos = if k < n - start {
            start + k
        } else {
            k - (n - start)
        };
        assert(pos == round_pos(n as int, start as int, k as int));
        assert(holders@[pos as int]@ == hs[pos as int]);
        match swarm_peer_by_id(&entry.swarm, &holders[pos]) {
            Some(p) => {
                proof {
                    assert(first_member(entry.swarm@, hs[round_pos(n as int, start as int, k as int)], p));
                    if k > 0 {
                        assert(!in_swarm(entry.swarm@, hs[round_pos(n as int, start as int, 0)]));
                    }
                    assert(round_pos(n as int, start as int, 0) == start);
                    assert(rotation_choice(hs, old(entry).turn) == hs[start as int]);
                    if in_swarm(entry.swarm@, hs[start as int]) && k > 0 {
                        assert(false);
                    }
                }
                return Some(p);
            },
            None => {
                proof {
                    if in_swarm(entry.swarm@, hs[pos as int]) {
                        let i = choose|i: int| 0 <= i < entry.swarm@.len() && entry.swarm@[i].peer_id@ == hs[pos as int];
                        assert(entry.swarm@[i].peer_id@ != holders@[pos as int]@);
                    }
                }
            },
        }
        k = k + 1;
    }
    proof {
        assert forall|j: int| 0 <= j < n implies !in_swarm(old(entry).swarm@, #[trigger] hs[j]) by {
            let kk = if j >= start { j - start } else { j + n - start };
            assert(round_pos(n as int, start as int, kk) == j);
            assert(!in_swarm(entry.swarm@, hs[round_pos(n as int, start as int, kk)]));
        }
    }
    None
}

/// The members a transfer's swarm holds before an update (none for a new entry).
pub open spec fn entry_swarm(t: Map<Seq<char>, TransferTrackerEntry>, id: Seq<char>) -> Seq<
    SwarmPeer,
> {
    if t.contains_key(id) {
        t[id].swarm@
    } else {
        Seq::empty()
    }
}

/// The swarm after a "HAVE": a peer that is not a member yet joins under its
/// id with the address the message carries, so that it can be asked for
/// chunks. A message without an address (from an older version, `ip` empty)
/// leaves the swarm as it was.
pub open spec fn swarm_after_have(swarm: Seq<SwarmPeer>, have: HaveChunk) -> Seq<SwarmPeer> {
    if in_swarm(swarm, have.peer_id@) || have.ip@.len() == 0 {
        swarm
    } else {
        swarm.push(SwarmPeer { peer_id: have.peer_id, ip: have.ip, tcp_port: have.tcp_port })
    }
}

/// The download-source rotation counter the tracker holds for a transfer
/// before an update (a new entry starts at 0).
pub open spec fn entry_turn(t: Map<Seq<char>, TransferTrackerEntry>, id: Seq<char>) -> u64 {
    if t.contains_key(id) {
        t[id].turn
    } else {
        0
    }
}

/// The chunk table the tracker holds for a transfer before an update.
pub open spec fn entry_peers(t: Map<Seq<char>, TransferTrackerEntry>, id: Seq<char>) -> Map<
    u32,
    Seq<Seq<char>>,
> {
    if t.contains_key(id) {
        t[id]@
    } else {
        Map::empty()
    }
}

fn add_all_chunks(entry: &mut TransferTrackerEntry, peer_id: &String, total_chunks: u32)
    ensures
        final(entry)@ == with_peer_chunks(old(entry)@, peer_id@, chunk_range(total_chunks)),
        final(entry).swarm == old(entry).swarm,
        final(entry).turn == old(entry).turn,
{
    let mut i: u32 = 0;
    while i < total_chunks
        invariant
            0 <= i <= total_chunks,
            entry@ == with_peer_chunks(old(entry)@, peer_id@, chunk_range(i)),
            entry.swarm == old(entry).swarm,
            entry.turn == old(entry).turn,
        decreases total_chunks - i,
    {
        assert(chunk_range((i + 1) as u32).drop_last() =~= chunk_range(i));
        entry.add_peer_chunk(peer_id.clone(), i);
        i = i + 1;
    }
}

/// What a receiver records when a transfer is announced: the announced swarm,
/// and the announcing sender as holder of chunk 0 and then of every chunk
/// `0..total_chunks` (chunk 0 is thus listed for it twice).
pub fn record_announce(tracker: &mut TransferTracker, announce: &TransferAnnounce)
    requires
        old(tracker).wf(),
    ensures
        final(tracker).wf(),
        final(tracker)@.contains_key(announce.transfer_id@),
        final(tracker)@.remove(announce.transfer_id@) == old(tracker)@.remove(
            announce.transfer_id@,
        ),
        final(tracker)@[announce.transfer_id@].swarm@ == announce.swarm@,
        final(tracker)@[announce.transfer_id@].turn == entry_turn(old(tracker)@, announce.transfer_id@),
        final(tracker)@[announce.transfer_id@]@ == with_peer_chunks(
            with_peer_chunk(
                entry_peers(old(tracker)@, announce.transfer_id@),
                announce.sender_peer_id@,
                0,
            ),
            announce.sender_peer_id@,
            chunk_range(announce.total_chunks),
        ),
{
    let entry = tracker.get_or_create(&announce.transfer_id);
    let swarm = announce.swarm.clone();
    assert(swarm@ =~= announce.swarm@);
    entry.set_swarm(swarm);
    entry.add_peer_chunk(announce.sender_peer_id.clone(), 0);
    add_all_chunks(entry, &announce.sender_peer_id, announce.total_chunks);
}

/// What the sender records when it starts a transfer: the swarm, and itself
/// as holder of every chunk `0..total_chunks`.
pub fn record_seed(
    tracker: &mut TransferTracker,
    transfer_id: &str,
    swarm: Vec<SwarmPeer>,
    my_peer_id: &String,
    total_chunks: u32,
)
    requires
        old(tracker).wf(),
    ensures
        final(tracker).wf(),
        final(tracker)@.contains_key(transfer_id@),
        final(tracker)@.remove(transfer_id@) == old(tracker)@.remove(transfer_id@),
        final(tracker)@[transfer_id@].swarm == swarm,
        final(tracker)@[transfer_id@].turn == entry_turn(old(tracker)@, transfer_id@),
        final(tracker)@[transfer_id@]@ == with_peer_chunks(
            entry_peers(old(tracker)@, transfer_id@),
            my_peer_id@,
            chunk_range(total_chunks),
        ),
{
    let entry = tracker.get_or_create(transfer_id);
    entry.set_swarm(swarm);
    add_all_chunks(entry, my_peer_id, total_chunks);
}

/// What a peer records on a "HAVE": the announcing peer holds that chunk,
/// and joins the swarm with its address when it is not a member yet.
pub fn record_have(tracker: &mut TransferTracker, have: HaveChunk)
    requires
        old(tracker).wf(),
    ensures
        final(tracker).wf(),
        final(tracker)@.contains_key(have.transfer_id@),
        final(tracker)@.remove(have.transfer_id@) == old(tracker)@.remove(have.transfer_id@),
        final(tracker)@[have.transfer_id@].turn == entry_turn(old(tracker)@, have.transfer_id@),
        final(tracker)@[have.transfer_id@].swarm@ == swarm_after_have(
            entry_swarm(old(tracker)@, have.transfer_id@),
            have,
        ),
        final(tracker)@[have.transfer_id@]@ == with_peer_chunk(
            entry_peers(old(tracker)@, have.transfer_id@),
            have.peer_id@,
            have.chunk_index,
        ),
{
    let entry = tracker.get_or_create(&have.transfer_id);
    let known = swarm_peer_by_id(&entry.swarm, &have.peer_id);
    if known.is_none() && !have.ip.as_str().is_empty() {
        entry.swarm.push(
            SwarmPeer { peer_id: have.peer_id.clone(), ip: have.ip.clone(), tcp_port: have.tcp_port },
        );
    }
    entry.add_peer_chunk(have.peer_id, have.chunk_index);
}

/// After a transfer is announced, the announcing sender is a holder of every
/// chunk of it, and the first holder recorded for each chunk that had none.
pub proof fn lemma_announce_sender_holds_all(
    before: Map<u32, Seq<Seq<char>>>,
    sender: Seq<char>,
    total_chunks: u32,
    chunk: u32,
)
    requires
        chunk < total_chunks,
    ensures
        peers_of(
            with_peer_chunks(with_peer_chunk(before, sender, 0), sender, chunk_range(total_chunks)),
            chunk,
        ).contains(sender),
        peers_of(before, chunk).len() == 0 ==> peers_of(
            with_peer_chunks(with_peer_chunk(before, sender, 0), sender, chunk_range(total_chunks)),
            chunk,
        )[0] == sender,
{
    lemma_peer_chunks_grow(with_peer_chunk(before, sender, 0), sender, chunk_range(total_chunks), chunk);
    let start = with_peer_chunk(before, sender, 0);
    let fin = with_peer_chunks(start, sender, chunk_range(total_chunks));
    assert(chunk_range(total_chunks)[chunk as int] == chunk);
    if peers_of(before, chunk).len() == 0 {
        if chunk == 0 {
            assert(peers_of(start, chunk) =~= seq![sender]);
            assert(peers_of(fin, chunk).take(1)[0] == sender);
        } else {
            assert(peers_of(start, chunk) == peers_of(before, chunk));
            assert(peers_of(fin, chunk).len() > 0);
            assert(peers_of(fin, chunk)[0] == sender);
        }
    }
}

/// Recording chunks only appends: each chunk's list keeps its old entries
/// as a prefix followed only by the recorded peer, and that peer is in the
/// list of each chunk of `chunks`.
pub proof fn lemma_peer_chunks_grow(
    m: Map<u32, Seq<Seq<char>>>,
    peer: Seq<char>,
    chunks: Seq<u32>,
    chunk: u32,
)
    ensures
        peers_of(m, chunk).len() <= peers_of(with_peer_chunks(m, peer, chunks), chunk).len(),
        peers_of(m, chunk) == peers_of(with_peer_chunks(m, peer, chunks), chunk).take(
            peers_of(m, chunk).len() as int,
        ),
        chunks.contains(chunk) ==> peers_of(with_peer_chunks(m, peer, chunks), chunk).contains(
            peer,
        ),
        forall|j: int|
            peers_of(m, chunk).len() <= j < peers_of(with_peer_chunks(m, peer, chunks), chunk).len()
                ==> #[trigger] peers_of(with_peer_chunks(m, peer, chunks), chunk)[j] == peer,
    decreases chunks.len(),
{
    if chunks.len() > 0 {
        let prev = with_peer_chunks(m, peer, chunks.drop_last());
        lemma_peer_chunks_grow(m, peer, chunks.drop_last(), chunk);
        let l = peers_of(m, chunk).len() as int;
        if chunks.last() == chunk {
            let cur = peers_of(prev, chunk).push(peer);
            assert(peers_of(with_peer_chunks(m, peer, chunks), chunk) == cur);
            assert(cur.take(l) =~= peers_of(prev, chunk).take(l));
            assert(cur[cur.len() - 1] == peer);
        } else {
            assert(peers_of(with_peer_chunks(m, peer, chunks), chunk) == peers_of(prev, chunk));
            if chunks.contains(chunk) {
                let k = choose|k: int| 0 <= k < chunks.len() && chunks[k] == chunk;
                assert(chunks.drop_last()[k] == chunk);
            }
        }
    }
}

/// A "HAVE" that carries an address makes its sender reachable: after it is
/// recorded the sender is a swarm member and a holder of the announced
/// chunk, so that chunk has a holder in the swarm and `download_source`
/// finds a source for it (it returns `None` only when no holder is a member).
pub proof fn lemma_have_sender_reachable(
    peers: Map<u32, Seq<Seq<char>>>,
    swarm: Seq<SwarmPeer>,
    have: HaveChunk,
)
    requires
        have.ip@.len() > 0,
    ensures
        in_swarm(swarm_after_have(swarm, have), have.peer_id@),
        peers_of(with_peer_chunk(peers, have.peer_id@, have.chunk_index), have.chunk_index).contains(
            have.peer_id@,
        ),
        exists|j: int|
            0 <= j < peers_of(
                with_peer_chunk(peers, have.peer_id@, have.chunk_index),
                have.chunk_index,
            ).len() && in_swarm(
                swarm_after_have(swarm, have),
                #[trigger] peers_of(
                    with_peer_chunk(peers, have.peer_id@, have.chunk_index),
                    have.chunk_index,
                )[j],
            ),
{
    let s2 = swarm_after_have(swarm, have);
    if !in_swarm(swarm, have.peer_id@) {
        assert(s2[s2.len() - 1].peer_id@ == have.peer_id@);
    }
    let hs = peers_of(with_peer_chunk(peers, have.peer_id@, have.chunk_index), have.chunk_index);
    assert(hs[hs.len() - 1] == have.peer_id@);
    assert(in_swarm(s2, hs[hs.len() - 1]));
}

} // verus!
