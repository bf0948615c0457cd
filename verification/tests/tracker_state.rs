use p2p_file_deployer::protocol::messages::{HaveChunk, SwarmPeer, TcpMsgType, TransferAnnounce};
use p2p_file_deployer::state::{
    ActiveTransfer, AppConfig, PeerEntry, PeerKind, TransferRole, TransferStatus,
};
use p2p_file_deployer::transfer::swarm::{
    build_swarm, download_source, have_recipients, record_announce, record_have, record_seed, swarm_peer_by_id,
};
use p2p_file_deployer::transfer::chunker::{build_chunk_map, ChunkMapBuilder};
use p2p_file_deployer::transfer::tracker::{TransferTracker, TransferTrackerEntry};

fn peer(id: &str, ip: &str, port: u16) -> SwarmPeer {
    SwarmPeer { peer_id: id.to_string(), ip: ip.to_string(), tcp_port: port }
}

fn announce(total: u32) -> TransferAnnounce {
    TransferAnnounce {
        msg_type: TcpMsgType::TransferAnnounce,
        transfer_id: "t-1".into(),
        sender_peer_id: "uuid-sender".into(),
        sender_ip: "192.168.1.10".into(),
        file_name: "instalador.exe".into(),
        file_size: 2_097_152,
        total_chunks: total,
        chunk_size: 1_048_576,
        chunk_hashes: vec!["aaa".into(), "bbb".into()],
        destination_path: "C:\\Descargas".into(),
        swarm: vec![peer("uuid-sender", "192.168.1.10", 47833), peer("uuid-r1", "192.168.1.20", 47833)],
    }
}

#[test]
fn entry_records_peers_in_order() {
    let mut e = TransferTrackerEntry::default();
    assert!(e.best_peer_for_chunk(0).is_none());
    assert!(e.get_peers_for_chunk(0).is_empty());
    e.add_peer_chunks("10.0.0.1".into(), vec![0, 1, 1]);
    e.add_peer_chunk("10.0.0.2".into(), 0);
    assert_eq!(e.get_peers_for_chunk(0), vec!["10.0.0.1".to_string(), "10.0.0.2".to_string()]);
    assert_eq!(e.get_peers_for_chunk(1), vec!["10.0.0.1".to_string(), "10.0.0.1".to_string()]);
    assert_eq!(e.best_peer_for_chunk(0), Some("10.0.0.1".to_string()));
    assert!(e.get_peers_for_chunk(2).is_empty());
}

#[test]
fn best_peer_rotates_over_holders() {
    let mut e = TransferTrackerEntry::default();
    e.add_peer_chunk("a".into(), 3);
    e.add_peer_chunk("b".into(), 3);
    e.add_peer_chunk("c".into(), 4);
    assert_eq!(e.turn, 0);
    assert_eq!(e.best_peer_for_chunk(3), Some("a".to_string()));
    assert_eq!(e.best_peer_for_chunk(3), Some("b".to_string()));
    assert_eq!(e.best_peer_for_chunk(3), Some("a".to_string()));
    assert_eq!(e.turn, 3);
    // a chunk nobody holds leaves the rotation where it was
    assert!(e.best_peer_for_chunk(9).is_none());
    assert_eq!(e.turn, 3);
    // one holder: always that holder
    assert_eq!(e.best_peer_for_chunk(4), Some("c".to_string()));
    // the turn is shared by all chunks: turn 4 picks position 0 of [a, b]
    assert_eq!(e.best_peer_for_chunk(3), Some("a".to_string()));
    assert_eq!(e.turn, 5);
}

#[test]
fn best_peer_rotation_wraps() {
    let mut e = TransferTrackerEntry::default();
    e.add_peer_chunk("a".into(), 0);
    e.add_peer_chunk("b".into(), 0);
    e.add_peer_chunk("c".into(), 0);
    e.turn = u64::MAX;
    // u64::MAX mod 3 == 0
    assert_eq!(e.best_peer_for_chunk(0), Some("a".to_string()));
    assert_eq!(e.turn, 0);
    assert_eq!(e.best_peer_for_chunk(0), Some("a".to_string()));
    assert_eq!(e.turn, 1);
}

#[test]
fn tracker_get_or_create_and_remove() {
    let mut t = TransferTracker::new();
    assert!(t.get("a").is_none());
    t.get_or_create("a").add_peer_chunk("p".into(), 3);
    t.get_or_create("b");
    assert_eq!(t.get_or_create("a").best_peer_for_chunk(3), Some("p".to_string()));
    // a second get_or_create returns the same entry
    t.get_or_create("a").add_peer_chunk("q".into(), 3);
    assert_eq!(t.get("a").unwrap().get_peers_for_chunk(3).len(), 2);
    t.remove("a");
    assert!(t.get("a").is_none());
    assert!(t.get("b").is_some());
    t.remove("zzz");
    assert!(t.get("b").is_some());
}

#[test]
fn announce_registers_sender_for_all_chunks() {
    let mut t = TransferTracker::new();
    let a = announce(3);
    record_announce(&mut t, &a);
    let e = t.get_or_create("t-1");
    assert_eq!(e.swarm.len(), 2);
    assert_eq!(e.get_peers_for_chunk(0).len(), 2);
    for i in 0..3 {
        assert_eq!(e.best_peer_for_chunk(i), Some("uuid-sender".to_string()));
    }
    assert!(e.best_peer_for_chunk(3).is_none());
}

#[test]
fn have_and_seed_records() {
    let mut t = TransferTracker::new();
    record_seed(&mut t, "t-9", vec![peer("me", "1.2.3.4", 1)], &"me".to_string(), 2);
    record_have(
        &mut t,
        HaveChunk {
            msg_type: TcpMsgType::HaveChunk,
            transfer_id: "t-9".into(),
            peer_id: "r1".into(),
            ip: "192.168.1.20".into(),
            tcp_port: 47833,
            chunk_index: 1,
        },
    );
    let e = t.get("t-9").unwrap();
    assert_eq!(e.get_peers_for_chunk(1), vec!["me".to_string(), "r1".to_string()]);
    assert_eq!(e.get_peers_for_chunk(0), vec!["me".to_string()]);
    // the announcing peer joins the swarm with its address
    assert_eq!(e.swarm.len(), 2);
    assert_eq!(e.swarm[1].peer_id, "r1");
    assert_eq!(e.swarm[1].ip, "192.168.1.20");
    assert_eq!(e.swarm[1].tcp_port, 47833);
    // a second HAVE from the same peer adds no second member
    record_have(
        &mut t,
        HaveChunk {
            msg_type: TcpMsgType::HaveChunk,
            transfer_id: "t-9".into(),
            peer_id: "r1".into(),
            ip: "192.168.1.20".into(),
            tcp_port: 47833,
            chunk_index: 0,
        },
    );
    assert_eq!(t.get("t-9").unwrap().swarm.len(), 2);
    // a HAVE without an address (older version) records the holder only
    record_have(
        &mut t,
        HaveChunk {
            msg_type: TcpMsgType::HaveChunk,
            transfer_id: "t-9".into(),
            peer_id: "old".into(),
            ip: String::new(),
            tcp_port: 0,
            chunk_index: 0,
        },
    );
    let e = t.get("t-9").unwrap();
    assert_eq!(e.swarm.len(), 2);
    assert_eq!(e.get_peers_for_chunk(0), vec!["me".to_string(), "r1".to_string(), "old".to_string()]);
}

#[test]
fn have_sender_becomes_download_source() {
    let mut t = TransferTracker::new();
    record_announce(&mut t, &announce(2));
    record_have(
        &mut t,
        HaveChunk {
            msg_type: TcpMsgType::HaveChunk,
            transfer_id: "t-1".into(),
            peer_id: "uuid-r2".into(),
            ip: "192.168.1.30".into(),
            tcp_port: 47834,
            chunk_index: 1,
        },
    );
    let e = t.get_or_create("t-1");
    // chunk 1 holders: [uuid-sender, uuid-r2]; turn 0 -> sender, turn 1 -> r2
    assert_eq!(download_source(e, 1).unwrap().peer_id, "uuid-sender");
    let src = download_source(e, 1).unwrap();
    assert_eq!(src.peer_id, "uuid-r2");
    assert_eq!(src.ip, "192.168.1.30");
    assert_eq!(src.tcp_port, 47834);
}

#[test]
fn download_source_skips_holders_outside_swarm() {
    let mut e = TransferTrackerEntry::default();
    e.add_peer_chunk("S".into(), 0);
    e.add_peer_chunk("U".into(), 0);
    e.swarm.push(peer("S", "1.1.1.1", 5));
    e.turn = 1;
    // the rotation points at U, which is not in the swarm: S serves
    let src = download_source(&mut e, 0).unwrap();
    assert_eq!(src.peer_id, "S");
    assert_eq!(e.turn, 2);
    // only holders outside the swarm: no source
    e.add_peer_chunk("V".into(), 1);
    assert!(download_source(&mut e, 1).is_none());
    assert_eq!(e.turn, 3);
}

#[test]
fn have_goes_to_everyone_else() {
    let swarm = vec![peer("me", "a", 1), peer("x", "b", 2), peer("me", "c", 3), peer("y", "d", 4)];
    let r = have_recipients(&swarm, "me");
    let ids: Vec<String> = r.iter().map(|p| p.peer_id.clone()).collect();
    assert_eq!(ids, vec!["x".to_string(), "y".to_string()]);
}

fn entry(id: &str, ip: &str, port: u16) -> PeerEntry {
    PeerEntry {
        peer_id: id.into(),
        hostname: "h".into(),
        ip: ip.into(),
        mac_address: None,
        tcp_port: port,
        kind: PeerKind::App,
        last_seen: 0,
        online: true,
        app_version: None,
    }
}

#[test]
fn swarm_starts_with_seed_and_skips_unknown() {
    let targets = vec!["p1".to_string(), "gone".to_string(), "p2".to_string()];
    let found = vec![Some(entry("p1", "10.0.0.1", 47833)), None, Some(entry("p2", "10.0.0.2", 47834))];
    let s = build_swarm(peer("me", "10.0.0.9", 47833), &targets, &found);
    assert_eq!(s.len(), 3);
    assert_eq!(s[0].peer_id, "me");
    assert_eq!(s[1].peer_id, "p1");
    assert_eq!(s[1].ip, "10.0.0.1");
    assert_eq!(s[2].peer_id, "p2");
    assert_eq!(s[2].tcp_port, 47834);
    assert_eq!(swarm_peer_by_id(&s, "p2").unwrap().ip, "10.0.0.2");
    assert!(swarm_peer_by_id(&s, "gone").is_none());
}

#[test]
fn receiving_transfer_progress() {
    let a = announce(2);
    let mut t = ActiveTransfer::receiving(&a, "C:\\Descargas\\instalador.exe".into(), 42);
    assert_eq!(t.role, TransferRole::Receiver);
    assert!(matches!(t.status, TransferStatus::InProgress));
    assert_eq!(t.chunks_done, vec![false, false]);
    assert_eq!(t.chunks_completed(), 0);
    assert!(t.chunk_to_serve(1).is_none());
    assert_eq!(t.mark_chunk_done(1, 100), (false, 1, 100));
    assert_eq!(t.mark_chunk_done(1, 100), (false, 1, 200));
    assert!(t.has_chunk(1));
    assert!(!t.has_chunk(0));
    let (path, size, hash) = t.chunk_to_serve(1).unwrap();
    assert_eq!(path, "C:\\Descargas\\instalador.exe");
    assert_eq!(size, 1_048_576);
    assert_eq!(hash, "bbb");
    assert_eq!(t.mark_chunk_done(0, 50), (true, 2, 250));
}

#[test]
fn seeding_transfer_holds_everything() {
    let data: Vec<u8> = (0..1000u32).map(|i| (i % 251) as u8).collect();
    let mut map = ChunkMapBuilder::new(400);
    map.push_chunk(&data[..400]);
    map.push_chunk(&data[400..800]);
    map.push_chunk(&data[800..]);
    let mut t = ActiveTransfer::seeding(
        map,
        "t".into(),
        "f".into(),
        "/tmp/f".into(),
        "/dst".into(),
        vec!["p".into()],
        vec![],
        "1.1.1.1".into(),
        "me".into(),
        7,
    );
    assert_eq!(t.file_size, 1000);
    assert_eq!(t.total_chunks, 3);
    assert_eq!(t.chunk_size, 400);
    assert_eq!(t.chunk_hashes, build_chunk_map(&data, 400));
    assert_eq!(t.chunks_done, vec![true, true, true]);
    assert_eq!(t.chunks_completed(), 3);
    assert_eq!(t.bytes_transferred, 1000);
    assert_eq!(t.role, TransferRole::Sender);
    assert!(matches!(t.status, TransferStatus::InProgress));
    t.mark_completed();
    assert!(matches!(t.status, TransferStatus::Completed));
    assert_eq!(t.total_chunks, 3);
}

#[test]
fn config_defaults() {
    let c = AppConfig::default();
    assert_eq!(c.default_destination, "C:\\Descargas");
    assert_eq!(c.max_concurrent_chunks, 4);
    assert!(c.auto_accept_transfers);
    assert!(c.minimize_to_tray);
    assert!(!c.autostart);
}

#[test]
fn download_source_rotates_over_holders_in_swarm() {
    let mut t = TransferTracker::new();
    record_announce(&mut t, &announce(2));
    let e = t.get_or_create("t-1");
    let src = download_source(e, 1).unwrap();
    assert_eq!(src.peer_id, "uuid-sender");
    assert_eq!(src.ip, "192.168.1.10");
    // a receiver announces it holds chunk 1: the next choice goes to it
    e.add_peer_chunk("uuid-r1".into(), 1);
    let src = download_source(e, 1).unwrap();
    assert_eq!(src.peer_id, "uuid-r1");
    assert_eq!(src.ip, "192.168.1.20");
    let src = download_source(e, 1).unwrap();
    assert_eq!(src.peer_id, "uuid-sender");
    assert!(download_source(e, 5).is_none());
    e.add_peer_chunk("stranger".into(), 7);
    assert!(download_source(e, 7).is_none());
}
