//! Subnet scanning: reading the system ARP table, choosing which addresses
//! to probe, and the registry records of discovered devices.
use crate::network::addr::{format_ipv4, ipv4_text};
use crate::state::{PeerEntry, PeerKind};
use crate::text::{
    chars_eq, chars_of, contains_char, decimal, lines, push_decimal, split_lines, split_words,
    starts_with_chars, string_of_chars, string_push, words,
};
use vstd::prelude::*;

verus! {

/// Layout of the ARP table printed by the system's `arp` command.
#[derive(Debug, Clone, Copy, PartialEq, Eq, Structural)]
pub enum ArpFormat {
    /// macOS `arp -an`: `? (192.168.1.1) at aa:bb:cc:dd:ee:ff on en0 ...`.
    MacOs,
    /// Windows `arp -a`: `192.168.1.1   aa-bb-cc-dd-ee-ff   dynamic`.
    Windows,
    /// Other systems, `arp -an` as `192.168.1.1 ether aa:bb:cc:dd:ee:ff ...`.
    Other,
}

/// Position of the first `x` in `s`.
pub open spec fn first_index_of<A>(s: Seq<A>, x: A) -> Option<int>
    decreases s.len(),
{
    if s.len() == 0 {
        None
    } else if s[0] == x {
        Some(0)
    } else {
        match first_index_of(s.drop_first(), x) {
            Some(i) => Some(i + 1),
            None => None,
        }
    }
}

proof fn lemma_first_index_of<A>(s: Seq<A>, x: A, i: int)
    requires
        0 <= i <= s.len(),
        forall|j: int| 0 <= j < i ==> s[j] != x,
    ensures
        i < s.len() && s[i] == x ==> first_index_of(s, x) == Some(i),
        i == s.len() ==> first_index_of(s, x) is None,
    decreases i,
{
    if i > 0 {
        assert forall|j: int| 0 <= j < i - 1 implies s.drop_first()[j] != x by {
            assert(s.drop_first()[j] == s[j + 1]);
        }
        lemma_first_index_of(s.drop_first(), x, i - 1);
        if i < s.len() {
            assert(s.drop_first()[i - 1] == s[i]);
        }
    }
}

/// The word `at` of the macOS layout.
pub open spec fn at_word() -> Seq<char> {
    seq!['a', 't']
}

/// Whether the text between the first `(` and the first `)` of a line can be
/// taken: not when a `)` comes before the first `(`.
pub open spec fn arp_line_sliceable(line: Seq<char>) -> bool {
    match (first_index_of(line, '('), first_index_of(line, ')')) {
        (Some(a), Some(b)) => a < b,
        _ => true,
    }
}

/// The (IP, MAC) pair that an ARP table line lists, if any.
pub open spec fn arp_entry(line: Seq<char>, format: ArpFormat) -> Option<(Seq<char>, Seq<char>)> {
    let ws = words(line);
    match format {
        ArpFormat::MacOs => match (first_index_of(line, '('), first_index_of(line, ')')) {
            (Some(a), Some(b)) => match first_index_of(ws, at_word()) {
                Some(k) => if k + 1 < ws.len() && ws[k + 1] != "(incomplete)"@ {
                    Some((line.subrange(a + 1, b), ws[k + 1]))
                } else {
                    None
                },
                None => None,
            },
            _ => None,
        },
        ArpFormat::Windows => if ws.len() >= 2 && ws[0].contains('.') && ws[1].contains('-') {
            Some((ws[0], ws[1]))
        } else {
            None
        },
        ArpFormat::Other => if ws.len() >= 3 && ws[0].contains('.') && ws[2].contains(':') {
            Some((ws[0], ws[2]))
        } else {
            None
        },
    }
}

fn find_char(v: &Vec<char>, c: char) -> (r: Option<usize>)
    ensures
        r matches Some(i) ==> first_index_of(v@, c) == Some(i as int) && i < v@.len(),
        r is None ==> first_index_of(v@, c) is None,
{
    let n = v.len();
    for i in 0..n
        invariant
            n == v@.len(),
            forall|j: int| 0 <= j < i ==> v@[j] != c,
    {
        if v[i] == c {
            proof {
                lemma_first_index_of(v@, c, i as int);
            }
            return Some(i);
        }
    }
    proof {
        lemma_first_index_of(v@, c, n as int);
    }
    None
}

fn find_at_word(ws: &Vec<Vec<char>>) -> (r: Option<usize>)
    ensures
        r matches Some(i) ==> i < ws@.len() && first_index_of(
            ws@.map_values(|w: Vec<char>| w@),
            at_word(),
        ) == Some(i as int),
        r is None ==> first_index_of(ws@.map_values(|w: Vec<char>| w@), at_word()) is None,
{
    let ghost vs = ws@.map_values(|w: Vec<char>| w@);
    let n = ws.len();
    for i in 0..n
        invariant
            n == ws@.len(),
            vs == ws@.map_values(|w: Vec<char>| w@),
            forall|j: int| 0 <= j < i ==> vs[j] != at_word(),
    {
        let w = &ws[i];
        if w.len() == 2 && w[0] == 'a' && w[1] == 't' {
            proof {
                assert(vs[i as int] =~= at_word());
                lemma_first_index_of(vs, at_word(), i as int);
            }
            return Some(i);
        }
        assert(vs[i as int] != at_word()) by {
            if vs[i as int] == at_word() {
                assert(vs[i as int][0] == 'a');
            }
        }
    }
    proof {
        lemma_first_index_of(vs, at_word(), n as int);
    }
    None
}

fn string_of_word(w: &Vec<char>) -> (s: String)
    requires
        w@.len() < isize::MAX / 4,
    ensures
        s@ == w@,
{
    let s = string_of_chars(w, 0, w.len());
    assert(w@.subrange(0, w@.len() as int) =~= w@);
    s
}

fn arp_entry_of_chars(line: &Vec<char>, format: ArpFormat) -> (r: Option<(String, String)>)
    requires
        line@.len() < isize::MAX / 4,
        format == ArpFormat::MacOs ==> arp_line_sliceable(line@),
    ensures
        r matches Some(p) ==> arp_entry(line@, format) == Some((p.0@, p.1@)),
        r is None ==> arp_entry(line@, format) is None,
{
    let ghost ws_spec = words(line@);
    let line_text = string_of_word(line);
    let ws = split_words(line_text.as_str());
    proof {
        assert(line_text@ == line@);
        crate::text::lemma_words_bounded(line@);
        assert(ws@.map_values(|w: Vec<char>| w@) =~= ws_spec);
    }
    match format {
        ArpFormat::MacOs => {
            let start = find_char(line, '(');
            let end = find_char(line, ')');
            match (start, end) {
                (Some(a), Some(b)) => {
                    match find_at_word(&ws) {
                        Some(k) => {
                            if k + 1 < ws.len() && !chars_eq(&ws[k + 1], "(incomplete)") {
                                let ip = string_of_chars(line, a + 1, b);
                                let mac = string_of_word(&ws[k + 1]);
                                Some((ip, mac))
                            } else {
                                None
                            }
                        },
                        None => None,
                    }
                },
                _ => None,
            }
        },
        ArpFormat::Windows => {
            if ws.len() >= 2 && contains_char(&ws[0], '.') && contains_char(&ws[1], '-') {
                Some((string_of_word(&ws[0]), string_of_word(&ws[1])))
            } else {
                None
            }
        },
        ArpFormat::Other => {
            if ws.len() >= 3 && contains_char(&ws[0], '.') && contains_char(&ws[2], ':') {
                Some((string_of_word(&ws[0]), string_of_word(&ws[2])))
            } else {
                None
            }
        },
    }
}

/// The (IP, MAC) pair listed by one line of the ARP table, if it lists one.
pub fn parse_arp_line(line: &str, format: ArpFormat) -> (r: Option<(String, String)>)
    requires
        line@.len() < isize::MAX / 4,
        format == ArpFormat::MacOs ==> arp_line_sliceable(line@),
    ensures
        r matches Some(p) ==> arp_entry(line@, format) == Some((p.0@, p.1@)),
        r is None ==> arp_entry(line@, format) is None,
{
    let chars = chars_of(line);
    arp_entry_of_chars(&chars, format)
}

/// A macOS `arp -an` line whose first `(` comes before its first `)` and
/// whose words include `at` followed by a word `w` lists the pair (the text
/// between the parentheses, `w`), whatever `w` looks like (MAC bytes may be
/// printed without leading zeros), unless `w` is `(incomplete)`, which lists
/// nothing.
pub proof fn lemma_arp_macos_line(line: Seq<char>, a: int, b: int, k: int)
    requires
        0 <= a < b < line.len(),
        line[a] == '(',
        line[b] == ')',
        forall|j: int| 0 <= j < a ==> line[j] != '(',
        forall|j: int| 0 <= j < b ==> line[j] != ')',
        0 <= k,
        k + 1 < words(line).len(),
        words(line)[k] == seq!['a', 't'],
        forall|j: int| 0 <= j < k ==> words(line)[j] != seq!['a', 't'],
    ensures
        words(line)[k + 1] != "(incomplete)"@ ==> arp_entry(line, ArpFormat::MacOs) == Some(
            (line.subrange(a + 1, b), words(line)[k + 1]),
        ),
        words(line)[k + 1] == "(incomplete)"@ ==> arp_entry(line, ArpFormat::MacOs) is None,
{
    lemma_first_index_of(line, '(', a);
    lemma_first_index_of(line, ')', b);
    lemma_first_index_of(words(line), at_word(), k);
}

/// The (IP, MAC) pairs listed by the lines `ls`, in order.
pub open spec fn arp_entries(ls: Seq<Seq<char>>, format: ArpFormat) -> Seq<(Seq<char>, Seq<char>)>
    decreases ls.len(),
{
    if ls.len() == 0 {
        Seq::empty()
    } else {
        let prev = arp_entries(ls.drop_last(), format);
        match arp_entry(ls.last(), format) {
            Some(p) => prev.push(p),
            None => prev,
        }
    }
}

/// The (IP, MAC) pairs of the ARP table printed as `table`, one per line that lists one.
pub fn parse_arp_table(table: &str, format: ArpFormat) -> (entries: Vec<(String, String)>)
    requires
        table@.len() < isize::MAX / 4,
        format == ArpFormat::MacOs ==> forall|i: int|
            0 <= i < lines(table@).len() ==> arp_line_sliceable(#[trigger] lines(table@)[i]),
    ensures
        entries@.map_values(|p: (String, String)| (p.0@, p.1@)) == arp_entries(
            lines(table@),
            format,
        ),
{
    let ls = split_lines(table);
    let ghost lspec = lines(table@);
    proof {
        crate::text::lemma_lines_bounded(table@);
    }
    let mut entries: Vec<(String, String)> = Vec::new();
    let n = ls.len();
    for i in 0..n
        invariant
            n == ls@.len(),
            n == lspec.len(),
            lspec == lines(table@),
            table@.len() < isize::MAX / 4,
            forall|j: int| 0 <= j < n ==> #[trigger] ls@[j]@ == lspec[j],
            forall|j: int| 0 <= j < n ==> #[trigger] lspec[j].len() <= table@.len(),
            format == ArpFormat::MacOs ==> forall|j: int|
                0 <= j < n ==> arp_line_sliceable(#[trigger] lspec[j]),
            entries@.map_values(|p: (String, String)| (p.0@, p.1@)) == arp_entries(
                lspec.take(i as int),
                format,
            ),
    {
        assert(lspec.take(i + 1).drop_last() =~= lspec.take(i as int));
        assert(lspec.take(i + 1).last() == ls@[i as int]@);
        let ghost before = entries@;
        match arp_entry_of_chars(&ls[i], format) {
            Some(p) => {
                entries.push(p);
                assert(entries@.map_values(|p: (String, String)| (p.0@, p.1@)) =~= before.map_values(
                    |p: (String, String)| (p.0@, p.1@),
                ).push((p.0@, p.1@)));
            },
            None => {},
        }
    }
    assert(lspec.take(n as int) =~= lspec);
    entries
}

/// Addresses the scan never probes: multicast 224.x and 239.x, and the broadcast address.
pub open spec fn ignored_address(ip: Seq<char>) -> bool {
    "224."@.is_prefix_of(ip) || "239."@.is_prefix_of(ip) || ip == "255.255.255.255"@
}

/// Whether a discovered address is left alone (multicast or broadcast).
pub fn is_ignored_address(ip: &str) -> (b: bool)
    ensures
        b == ignored_address(ip@),
{
    let chars = chars_of(ip);
    starts_with_chars(&chars, "224.") || starts_with_chars(&chars, "239.") || chars_eq(
        &chars,
        "255.255.255.255",
    )
}

/// Registry id of a discovered device: `ip:port` when the application answered
/// on `port`, the bare IP otherwise.
pub open spec fn discovered_id(ip: Seq<char>, app_port: Option<u16>) -> Seq<char> {
    match app_port {
        Some(p) => ip + seq![':'] + decimal(p as nat),
        None => ip,
    }
}

/// Registry id of a discovered device.
pub fn discovered_peer_id(ip: &str, app_port: Option<u16>) -> (id: String)
    requires
        ip@.len() < isize::MAX / 8,
    ensures
        id@ == discovered_id(ip@, app_port),
{
    let mut id = ip.to_owned();
    if let Some(p) = app_port {
        proof {
            crate::text::lemma_u64_decimal_len(p as u64);
        }
        string_push(&mut id, ':');
        push_decimal(&mut id, p as u64);
        assert(id@ =~= discovered_id(ip@, app_port));
    }
    id
}

/// `c` with all `:` removed.
pub open spec fn without_colons(s: Seq<char>) -> Seq<char>
    decreases s.len(),
{
    if s.len() == 0 {
        Seq::empty()
    } else if s.last() == ':' {
        without_colons(s.drop_last())
    } else {
        without_colons(s.drop_last()).push(s.last())
    }
}

/// Bytes of `c` in UTF-8.
pub open spec fn utf8_width(c: char) -> nat {
    if (c as u32) < 0x80 {
        1
    } else if (c as u32) < 0x800 {
        2
    } else if (c as u32) < 0x1_0000 {
        3
    } else {
        4
    }
}

/// The first `n` bytes of `s` in UTF-8, as characters, when `n` falls on a
/// character boundary within `s` (what `str::get(0..n)` gives).
pub open spec fn utf8_prefix(s: Seq<char>, n: nat) -> Option<Seq<char>>
    decreases s.len(),
{
    if n == 0 {
        Some(Seq::empty())
    } else if s.len() == 0 || utf8_width(s[0]) > n {
        None
    } else {
        match utf8_prefix(s.drop_first(), (n - utf8_width(s[0])) as nat) {
            Some(t) => Some(seq![s[0]] + t),
            None => None,
        }
    }
}

/// Placeholder hostname of a device found by scanning: `Device-` and the
/// first six bytes of its MAC address without colons, or `Device-unknown`.
pub open spec fn device_name(mac: Seq<char>) -> Seq<char> {
    "Device-"@ + match utf8_prefix(without_colons(mac), 6) {
        Some(p) => p,
        None => "unknown"@,
    }
}

fn utf8_width_of(c: char) -> (w: usize)
    ensures
        w == utf8_width(c),
{
    let v = c as u32;
    if v < 0x80 {
        1
    } else if v < 0x800 {
        2
    } else if v < 0x1_0000 {
        3
    } else {
        4
    }
}

fn push_str(s: &mut String, lit: &str)
    requires
        old(s)@.len() + lit@.len() < isize::MAX / 4,
    ensures
        final(s)@ == old(s)@ + lit@,
{
    let cs = chars_of(lit);
    let n = cs.len();
    for i in 0..n
        invariant
            n == cs@.len(),
            cs@ == lit@,
            s@ == old(s)@ + lit@.take(i as int),
            old(s)@.len() + lit@.len() < isize::MAX / 4,
    {
        string_push(s, cs[i]);
        assert(s@ =~= old(s)@ + lit@.take(i + 1));
    }
    assert(lit@.take(n as int) =~= lit@);
}

/// Placeholder hostname of a device found by scanning.
pub fn device_hostname(mac: &str) -> (name: String)
    ensures
        name@ == device_name(mac@),
{
    let chars = chars_of(mac);
    let n = chars.len();
    let mut kept: Vec<char> = Vec::new();
    for i in 0..n
        invariant
            n == chars@.len(),
            kept@ == without_colons(chars@.take(i as int)),
    {
        assert(chars@.take(i + 1).drop_last() =~= chars@.take(i as int));
        if chars[i] != ':' {
            kept.push(chars[i]);
        }
    }
    assert(chars@.take(n as int) =~= chars@);
    let ghost m = kept@;
    // walk the kept characters until six bytes are covered
    let mut bytes: usize = 0;
    let mut j: usize = 0;
    assert(m.skip(0) =~= m);
    assert(forall|t: Seq<char>| m.take(0) + t =~= t);
    while j < kept.len() && bytes < 6 && bytes + utf8_width_of(kept[j]) <= 6
        invariant
            m == kept@,
            j <= kept@.len(),
            j <= bytes <= 6,
            utf8_prefix(m, 6) == match utf8_prefix(m.skip(j as int), (6 - bytes) as nat) {
                Some(t) => Some(m.take(j as int) + t),
                None => None,
            },
        decreases kept@.len() - j,
    {
        let w = utf8_width_of(kept[j]);
        proof {
            let rest = m.skip(j as int);
            assert(rest[0] == m[j as int]);
            assert(rest.drop_first() =~= m.skip(j + 1));
            assert(m.take(j + 1) =~= m.take(j as int) + seq![m[j as int]]);
            match utf8_prefix(m.skip(j + 1), (6 - bytes - w) as nat) {
                Some(t) => {
                    assert(m.take(j as int) + (seq![m[j as int]] + t) =~= m.take(j + 1) + t);
                },
                None => {},
            }
        }
        bytes = bytes + w;
        j = j + 1;
    }
    let mut name = String::new();
    proof {
        reveal_strlit("Device-");
        reveal_strlit("unknown");
    }
    push_str(&mut name, "Device-");
    if bytes == 6 {
        proof {
            assert(utf8_prefix(m.skip(j as int), 0) == Some(Seq::<char>::empty()));
            assert(m.take(j as int) + Seq::<char>::empty() =~= m.take(j as int));
        }
        let mut i: usize = 0;
        while i < j
            invariant
                i <= j <= kept@.len(),
                j <= 6,
                m == kept@,
                name@ == "Device-"@ + m.take(i as int),
                "Device-"@.len() == 7,
            decreases j - i,
        {
            string_push(&mut name, kept[i]);
            assert(name@ =~= "Device-"@ + m.take(i + 1));
            i = i + 1;
        }
    } else {
        proof {
            assert(utf8_prefix(m.skip(j as int), (6 - bytes) as nat) is None);
        }
        push_str(&mut name, "unknown");
    }
    name
}

/// `p` is the registry record of a device first seen by a scan at `ip`
/// with MAC address `mac`, answering on `app_port`, at time `now`.
pub open spec fn is_discovered_record(p: PeerEntry, ip: Seq<char>, mac: Seq<char>, app_port: Option<u16>, now: u64) -> bool {
    &&& p.peer_id@ == discovered_id(ip, app_port)
    &&& p.hostname@ == device_name(mac)
    &&& p.ip@ == ip
    &&& p.mac_address matches Some(m) && m@ == mac
    &&& p.tcp_port == (match app_port {
        Some(port) => port,
        None => 0,
    })
    &&& p.kind == (if app_port is Some {
        PeerKind::App
    } else {
        PeerKind::NonApp
    })
    &&& p.last_seen == now
    &&& p.online
    &&& p.app_version is None
}

/// `p` is the record `q` of a device after a scan saw it again with MAC
/// address `mac`, answering on `app_port`, at time `now`: id, name, address
/// and version kept; MAC, time, online, kind and port refreshed.
pub open spec fn is_refreshed_record(p: PeerEntry, q: PeerEntry, mac: Seq<char>, app_port: Option<u16>, now: u64) -> bool {
    &&& p.mac_address matches Some(m) && m@ == mac
    &&& p.last_seen == now
    &&& p.online
    &&& p.kind == (if app_port is Some {
        PeerKind::App
    } else {
        PeerKind::NonApp
    })
    &&& p.tcp_port == (match app_port {
        Some(port) => port,
        None => 0,
    })
    &&& p.peer_id == q.peer_id
    &&& p.hostname == q.hostname
    &&& p.ip == q.ip
    &&& p.app_version == q.app_version
}

/// Registry record of a device seen by a scan for the first time.
pub fn discovered_peer(ip: &str, mac: &str, app_port: Option<u16>, now: u64) -> (p: PeerEntry)
    requires
        ip@.len() < isize::MAX / 8,
    ensures
        is_discovered_record(p, ip@, mac@, app_port, now),
{
    let kind = match app_port {
        Some(_) => PeerKind::App,
        None => PeerKind::NonApp,
    };
    let tcp_port = match app_port {
        Some(port) => port,
        None => 0,
    };
    PeerEntry {
        peer_id: discovered_peer_id(ip, app_port),
        hostname: device_hostname(mac),
        ip: ip.to_owned(),
        mac_address: Some(mac.to_owned()),
        tcp_port,
        kind,
        last_seen: now,
        online: true,
        app_version: None,
    }
}

/// Updates the record of a device seen again by a scan: its MAC address,
/// when it was seen, online, whether the application answered and on which port.
pub fn refresh_peer(p: &mut PeerEntry, mac: &str, app_port: Option<u16>, now: u64)
    ensures
        is_refreshed_record(*final(p), *old(p), mac@, app_port, now),
{
    p.mac_address = Some(mac.to_owned());
    p.last_seen = now;
    p.online = true;
    p.kind = match app_port {
        Some(_) => PeerKind::App,
        None => PeerKind::NonApp,
    };
    p.tcp_port = match app_port {
        Some(port) => port,
        None => 0,
    };
}

/// What the registry keeps when a scan sees a device at `ip`: the record it
/// already had under the device's id (`existing`), refreshed, or else a new
/// record; and whether the device is new (then the user interface is told).
pub fn seen_peer(existing: Option<PeerEntry>, ip: &str, mac: &str, app_port: Option<u16>, now: u64) -> (r: (PeerEntry, bool))
    requires
        ip@.len() < isize::MAX / 8,
    ensures
        r.1 == existing is None,
        existing is None ==> is_discovered_record(r.0, ip@, mac@, app_port, now),
        existing matches Some(q) ==> is_refreshed_record(r.0, q, mac@, app_port, now),
{
    match existing {
        Some(q) => {
            let mut p = q;
            refresh_peer(&mut p, mac, app_port, now);
            (p, false)
        },
        None => (discovered_peer(ip, mac, app_port, now), true),
    }
}

/// The addresses a subnet scan pings: `base` with host numbers `1..=count`
/// (taken modulo 256), leaving out this machine's own address.
pub open spec fn scan_targets_spec(base: [u8; 4], count: u32, local_ip: Seq<char>) -> Seq<[u8; 4]>
    decreases count,
{
    if count == 0 {
        Seq::empty()
    } else {
        let prev = scan_targets_spec(base, (count - 1) as u32, local_ip);
        let t: [u8; 4] = [base@[0], base@[1], base@[2], count as u8];
        if ipv4_text(t) == local_ip {
            prev
        } else {
            prev.push(t)
        }
    }
}

/// The scan targets in terms of what they are for: the addresses
/// `base[0].base[1].base[2].h` for `h = 1..=count` (taken modulo 256), in
/// that order, keeping exactly those whose dotted-decimal text is not this
/// machine's own address `local_ip`. Every other address is kept, including
/// ones whose text merely begins or ends like `local_ip`.
pub proof fn lemma_scan_targets_keep_all_but_self(base: [u8; 4], count: u32, local_ip: Seq<char>)
    ensures
        scan_targets_spec(base, count, local_ip) == Seq::new(
            count as nat,
            |i: int| [base@[0], base@[1], base@[2], (i + 1) as u8],
        ).filter(|t: [u8; 4]| ipv4_text(t) != local_ip),
    decreases count,
{
    reveal(Seq::filter);
    let all = Seq::new(count as nat, |i: int| [base@[0], base@[1], base@[2], (i + 1) as u8]);
    if count > 0 {
        let c1 = (count - 1) as u32;
        lemma_scan_targets_keep_all_but_self(base, c1, local_ip);
        let prev_all = Seq::new(c1 as nat, |i: int| [base@[0], base@[1], base@[2], (i + 1) as u8]);
        assert(all.drop_last() =~= prev_all);
        let t: [u8; 4] = [base@[0], base@[1], base@[2], count as u8];
        assert(all.last() == t);
    } else {
        assert(all =~= Seq::<[u8; 4]>::empty());
    }
}

/// The addresses a subnet scan pings.
pub fn scan_targets(base: [u8; 4], count: u32, local_ip: &str) -> (targets: Vec<[u8; 4]>)
    ensures
        targets@ == scan_targets_spec(base, count, local_ip@),
{
    let me = local_ip.to_owned();
    let mut targets: Vec<[u8; 4]> = Vec::new();
    let mut i: u32 = 0;
    while i < count
        invariant
            0 <= i <= count,
            me@ == local_ip@,
            targets@ == scan_targets_spec(base, i, local_ip@),
        decreases count - i,
    {
        i = i + 1;
        #[verifier::truncate]
        let host = i as u8;
        let t: [u8; 4] = [base[0], base[1], base[2], host];
        let text = format_ipv4(t);
        assert(t@ =~= seq![base@[0], base@[1], base@[2], i as u8]);
        if !(text == me) {
            targets.push(t);
        }
    }
    targets
}

} // verus!
