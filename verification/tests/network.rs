use p2p_file_deployer::network::addr::{
    format_ipv4, local_subnet, next_listen_port, select_local_ip, InterfaceAddr,
};
use p2p_file_deployer::network::scanner::{
    device_hostname, discovered_peer, discovered_peer_id, is_ignored_address, parse_arp_line,
    parse_arp_table, refresh_peer, scan_targets, seen_peer, ArpFormat,
};
use p2p_file_deployer::state::PeerKind;

fn v4(a: u8, b: u8, c: u8, d: u8) -> InterfaceAddr {
    InterfaceAddr { is_loopback: false, ipv4: Some([a, b, c, d]) }
}

#[test]
fn subnet_skips_loopback_and_link_local() {
    let ifaces = vec![
        InterfaceAddr { is_loopback: true, ipv4: Some([127, 0, 0, 1]) },
        v4(169, 254, 3, 4),
        InterfaceAddr { is_loopback: false, ipv4: None },
        v4(10, 1, 2, 3),
        v4(192, 168, 0, 5),
    ];
    assert_eq!(local_subnet(&ifaces), Some(([10, 1, 2, 0], 254)));
    assert_eq!(local_subnet(&vec![v4(127, 0, 0, 2)]), None);
}

#[test]
fn local_ip_prefers_lan_ranges() {
    let ifaces = vec![
        v4(192, 168, 56, 1),
        v4(172, 17, 0, 1),
        v4(8, 8, 8, 8),
        v4(172, 20, 0, 1),
        v4(10, 0, 0, 7),
        v4(192, 168, 1, 33),
        v4(192, 168, 2, 44),
    ];
    assert_eq!(select_local_ip(&ifaces), Some([192, 168, 1, 33]));
    let ifaces = vec![v4(8, 8, 8, 8), v4(172, 16, 0, 1), v4(10, 0, 0, 7), v4(10, 0, 0, 8)];
    assert_eq!(select_local_ip(&ifaces), Some([10, 0, 0, 7]));
    assert_eq!(select_local_ip(&vec![v4(169, 254, 1, 1)]), None);
    assert_eq!(select_local_ip(&vec![v4(5, 6, 7, 8)]), Some([5, 6, 7, 8]));
}

#[test]
fn ipv4_text() {
    assert_eq!(format_ipv4([192, 168, 1, 20]), "192.168.1.20");
    assert_eq!(format_ipv4([0, 0, 0, 0]), "0.0.0.0");
    assert_eq!(format_ipv4([255, 10, 9, 100]), "255.10.9.100");
}

#[test]
fn listen_port_retries() {
    assert_eq!(next_listen_port(47833), Some(47834));
    assert_eq!(next_listen_port(47932), Some(47933));
    assert_eq!(next_listen_port(47933), None);
}

#[test]
fn arp_windows_lines() {
    let line = "  192.168.1.1          aa-bb-cc-dd-ee-ff     dinámico";
    assert_eq!(
        parse_arp_line(line, ArpFormat::Windows),
        Some(("192.168.1.1".to_string(), "aa-bb-cc-dd-ee-ff".to_string()))
    );
    assert_eq!(parse_arp_line("Interfaz: 192.168.1.5 --- 0xb", ArpFormat::Windows), None);
    assert_eq!(parse_arp_line("", ArpFormat::Windows), None);
}

#[test]
fn arp_other_lines() {
    let line = "192.168.1.1 ether aa:bb:cc:dd:ee:ff C eth0";
    assert_eq!(
        parse_arp_line(line, ArpFormat::Other),
        Some(("192.168.1.1".to_string(), "aa:bb:cc:dd:ee:ff".to_string()))
    );
    assert_eq!(parse_arp_line("? (192.168.1.1) at aa:bb:cc:dd:ee:ff", ArpFormat::Other), None);
}

#[test]
fn arp_macos_lines() {
    let line = "? (192.168.1.1) at aa:bb:cc:dd:ee:ff on en0 ifscope [ethernet]";
    assert_eq!(
        parse_arp_line(line, ArpFormat::MacOs),
        Some(("192.168.1.1".to_string(), "aa:bb:cc:dd:ee:ff".to_string()))
    );
    assert_eq!(parse_arp_line("? (192.168.1.9) at (incomplete) on en0", ArpFormat::MacOs), None);
    assert_eq!(parse_arp_line("? (192.168.1.9) at", ArpFormat::MacOs), None);
    assert_eq!(parse_arp_line("no parens at all", ArpFormat::MacOs), None);
}

#[test]
fn arp_table_lines() {
    let table = "192.168.1.1 ether aa:bb:cc:dd:ee:ff C eth0\r\nbad line\n10.0.0.2 ether 11:22:33:44:55:66 C eth0\n";
    let entries = parse_arp_table(table, ArpFormat::Other);
    assert_eq!(
        entries,
        vec![
            ("192.168.1.1".to_string(), "aa:bb:cc:dd:ee:ff".to_string()),
            ("10.0.0.2".to_string(), "11:22:33:44:55:66".to_string()),
        ]
    );
    assert!(parse_arp_table("", ArpFormat::MacOs).is_empty());
}

#[test]
fn ignored_addresses() {
    assert!(is_ignored_address("224.0.0.251"));
    assert!(is_ignored_address("239.255.255.250"));
    assert!(is_ignored_address("255.255.255.255"));
    assert!(!is_ignored_address("192.168.1.255"));
    assert!(!is_ignored_address("224"));
}

#[test]
fn peer_ids_and_hostnames() {
    assert_eq!(discovered_peer_id("192.168.1.5", Some(47834)), "192.168.1.5:47834");
    assert_eq!(discovered_peer_id("192.168.1.5", None), "192.168.1.5");
    assert_eq!(device_hostname("aa:bb:cc:dd:ee:ff"), "Device-aabbcc");
    assert_eq!(device_hostname("aa-bb-cc"), "Device-aa-bb-");
    assert_eq!(device_hostname("ab:c"), "Device-unknown");
    assert_eq!(device_hostname("ééé:x"), "Device-ééé");
    assert_eq!(device_hostname("aaaaé"), "Device-aaaaé");
    assert_eq!(device_hostname("aaaaaé"), "Device-unknown");
}

#[test]
fn discovered_and_refreshed_records() {
    let mut p = discovered_peer("10.0.0.3", "aa:bb:cc:dd:ee:ff", Some(47833), 99);
    assert_eq!(p.peer_id, "10.0.0.3:47833");
    assert_eq!(p.hostname, "Device-aabbcc");
    assert_eq!(p.kind, PeerKind::App);
    assert_eq!(p.tcp_port, 47833);
    assert_eq!(p.mac_address.as_deref(), Some("aa:bb:cc:dd:ee:ff"));
    assert!(p.online);
    refresh_peer(&mut p, "11:22:33:44:55:66", None, 120);
    assert_eq!(p.kind, PeerKind::NonApp);
    assert_eq!(p.tcp_port, 0);
    assert_eq!(p.last_seen, 120);
    assert_eq!(p.peer_id, "10.0.0.3:47833");
    let q = discovered_peer("10.0.0.4", "x", None, 1);
    assert_eq!(q.peer_id, "10.0.0.4");
    assert_eq!(q.hostname, "Device-unknown");
}

#[test]
fn scan_skips_own_address() {
    let t = scan_targets([192, 168, 1, 0], 254, "192.168.1.7");
    assert_eq!(t.len(), 253);
    assert_eq!(t[0], [192, 168, 1, 1]);
    assert!(!t.contains(&[192, 168, 1, 7]));
    assert_eq!(t[252], [192, 168, 1, 254]);
    assert_eq!(scan_targets([10, 0, 0, 0], 3, "10.0.0.99").len(), 3);
    assert!(scan_targets([10, 0, 0, 0], 0, "x").is_empty());
}

#[test]
fn seen_peer_inserts_or_refreshes() {
    let (p, is_new) = seen_peer(None, "10.0.0.3", "aa:bb:cc:dd:ee:ff", Some(47833), 5);
    assert!(is_new);
    assert_eq!(p.peer_id, "10.0.0.3:47833");
    assert_eq!(p.hostname, "Device-aabbcc");
    assert_eq!(p.last_seen, 5);
    let mut old = p.clone();
    old.hostname = "mi-pc".into();
    old.online = false;
    let (q, is_new) = seen_peer(Some(old), "10.0.0.3", "11:22:33:44:55:66", Some(47833), 9);
    assert!(!is_new);
    assert_eq!(q.hostname, "mi-pc");
    assert!(q.online);
    assert_eq!(q.last_seen, 9);
    assert_eq!(q.mac_address.as_deref(), Some("11:22:33:44:55:66"));
}
