use port_scan_rs::netif::{
    format_address, mac_for_device, parse_mac_table, prefix_len, sysfs_mac_entry,
    dash_if_empty, format_addr, format_preview, guid_key, interface_rows, parse_powershell_ifaces,
    preview_row, protocol_label, sort_ifaces, sysfs_iface, IfaceCaptureHandle, IfaceInfo, PreviewRow,
};
use port_scan_rs::parser::{parse_link_frame, LinkKind};

fn iface(name: &str, running: bool, loopback: bool) -> IfaceInfo {
    IfaceInfo {
        name: name.to_string(),
        description: String::new(),
        mac: None,
        addresses: Vec::new(),
        up: running,
        running,
        loopback,
        wireless: false,
    }
}

#[test]
fn status_and_label() {
    let mut f = iface("eth0", true, false);
    assert_eq!(f.status_text(), "UP,RUNNING");
    f.wireless = true;
    assert_eq!(f.status_text(), "UP,RUNNING,WIRELESS");
    let down = IfaceInfo { up: false, running: false, wireless: false, ..iface("x", false, false) };
    assert_eq!(down.status_text(), "DOWN");
    let lo = iface("lo", false, true);
    assert_eq!(lo.status_text(), "LOOPBACK");
    let mut g = iface("eth1", true, false);
    assert_eq!(g.label(), "eth1");
    g.description = "Intel NIC".to_string();
    g.addresses = vec!["10.0.0.5/24".to_string(), "fe80::1/64".to_string()];
    assert_eq!(g.label(), "eth1 - Intel NIC [10.0.0.5/24]");
    g.description = "   ".to_string();
    assert_eq!(g.label(), "eth1 [10.0.0.5/24]");
}

#[test]
fn blank_text_becomes_dash() {
    assert_eq!(dash_if_empty(""), "-");
    assert_eq!(dash_if_empty("  \t"), "-");
    assert_eq!(dash_if_empty(" a "), " a ");
}

#[test]
fn interface_table_rows() {
    let mut a = iface("eth0", true, false);
    a.addresses = vec!["10.0.0.5/24".to_string(), "fe80::1/64".to_string()];
    a.mac = Some("AA:BB:CC:DD:EE:FF".to_string());
    let b = iface("lo", false, true);
    let rows = interface_rows(&[a, b]);
    assert_eq!(rows[0], vec!["1", "eth0", "-", "10.0.0.5/24, fe80::1/64", "AA:BB:CC:DD:EE:FF", "UP,RUNNING"]);
    assert_eq!(rows[1], vec!["2", "lo", "-", "-", "-", "LOOPBACK"]);
}

#[test]
fn interfaces_are_ordered() {
    let v = vec![
        iface("lo", true, true),
        iface("wlan0", false, false),
        iface("eth1", true, false),
        iface("eth0", true, false),
        iface("docker0", false, false),
    ];
    let names: Vec<String> = sort_ifaces(v).into_iter().map(|f| f.name).collect();
    assert_eq!(names, vec!["eth0", "eth1", "lo", "docker0", "wlan0"]);
}

#[test]
fn guid_keys() {
    assert_eq!(guid_key("\\Device\\NPF_{ab12-cd}"), "{AB12-CD}");
    assert_eq!(guid_key("eth0"), "ETH0");
    assert_eq!(guid_key("}x{"), "}X{");
}

#[test]
fn sysfs_records() {
    let f = sysfs_iface(
        "eth0".to_string(),
        Some("aa:bb:cc:dd:ee:ff\n".to_string()),
        Some("up\n".to_string()),
        Some("0x1003\n".to_string()),
        false,
    );
    assert_eq!(f.mac.as_deref(), Some("AA:BB:CC:DD:EE:FF"));
    assert!(f.up && f.running && !f.loopback);
    let lo = sysfs_iface("lo".to_string(), Some("\n".to_string()), Some("unknown".to_string()), Some("0x9".to_string()), false);
    assert_eq!(lo.mac, None);
    assert!(lo.up && !lo.running && lo.loopback);
    let w = sysfs_iface("wlan0".to_string(), None, None, None, true);
    assert!(!w.up && !w.running && !w.loopback && w.wireless);
    assert_eq!(w.description, "");
}

#[test]
fn endpoints_and_protocol_column() {
    assert_eq!(format_addr(Some("1.2.3.4"), Some(80)), "1.2.3.4:80");
    assert_eq!(format_addr(Some("1.2.3.4"), None), "1.2.3.4");
    assert_eq!(format_addr(None, Some(80)), "-");
    let mut f = vec![0u8; 12];
    f.extend_from_slice(&[0x08, 0x06]);
    let p = parse_link_frame(&f, 0, 0, LinkKind::Ethernet);
    assert_eq!(protocol_label(&p), "ARP");
}

#[test]
fn preview_of_a_frame() {
    let mut f = vec![0u8; 12];
    f.extend_from_slice(&[0x08, 0x00, 0x45, 0, 0, 40, 0, 0, 0, 0, 64, 6, 0, 0, 10, 0, 0, 1, 10, 0, 0, 2]);
    f.extend_from_slice(&[0x9C, 0x40, 0x00, 0x50, 0, 0, 0, 0, 0, 0, 0, 0, 0x50, 0x02, 0xFF, 0xFF, 0, 0, 0, 0]);
    let r = preview_row(&f, 5, 42, LinkKind::Ethernet);
    assert_eq!(r.seq, 5);
    assert_eq!(r.timestamp_ns, 42);
    assert_eq!(r.src, "10.0.0.1:40000");
    assert_eq!(r.dst, "10.0.0.2:80");
    assert_eq!(r.protocol, "TCP [SYN]");
    assert_eq!(r.length, f.len() as u32);
    assert_eq!(r.summary, "TCP [SYN]");
    let line = format_preview(&r, "12:00:00.000");
    assert_eq!(
        line,
        format!(
            "#5      12:00:00.000 {:<24} -> {:<24} {:<14} {:>6} B  TCP [SYN]",
            "10.0.0.1:40000", "10.0.0.2:80", "TCP [SYN]", f.len()
        )
    );
}

#[test]
fn preview_line_keeps_long_fields() {
    let r = PreviewRow {
        seq: 1234567,
        timestamp_ns: 0,
        src: "a".repeat(30),
        dst: "b".to_string(),
        protocol: "p".to_string(),
        length: 1234567,
        summary: String::new(),
    };
    let line = format_preview(&r, "t");
    assert!(line.starts_with(&format!("#1234567 t {} -> b", "a".repeat(30))));
    assert!(line.ends_with(" 1234567 B  "));
}

const PS_IFACES: &str = "IP|12|192.168.1.5/24\r
IP|12|fe80::1/64\r
IP|x|1.1.1.1/8\r
IP|1|127.0.0.1/8\r
AD|12|Wi-Fi|Intel(R) Wi-Fi 6 AX201|AA-BB-CC-DD-EE-FF|Up\r
AD|1|Loopback|Software Loopback Interface 1||Disconnected\r
AD|12|Dup|Second adapter|00-11-22-33-44-55|up\r
";

#[test]
fn powershell_interface_listing() {
    let v = parse_powershell_ifaces(PS_IFACES);
    assert_eq!(v.len(), 3);
    assert_eq!(v[0].name, "Dup");
    assert!(v[0].addresses.is_empty());
    assert_eq!(v[1].name, "Wi-Fi");
    assert_eq!(v[1].addresses, vec!["192.168.1.5/24", "fe80::1/64"]);
    assert_eq!(v[1].mac.as_deref(), Some("AA:BB:CC:DD:EE:FF"));
    assert!(v[1].wireless && v[1].up && v[1].running && !v[1].loopback);
    assert_eq!(v[2].name, "Loopback");
    assert!(v[2].loopback && !v[2].up);
    assert_eq!(v[2].mac, None);
    assert_eq!(v[2].addresses, vec!["127.0.0.1/8"]);
}

#[test]
fn capture_handle_counts() {
    let h = IfaceCaptureHandle::new();
    assert!(!h.stop_requested());
    h.record(100);
    h.record(60);
    assert_eq!(h.counters(), (2, 160));
    let shared = h.clone();
    shared.stop();
    assert!(h.stop_requested());
}

#[test]
fn mac_tables_and_lookup() {
    let t = parse_mac_table("{abc-1}|aa-bb-cc-dd-ee-ff\r\n|11-22-33-44-55-66\r\n{x}|bad\r\nnoseparator\r\n{ABC-1}|00-00-00-00-00-01\r\n");
    assert_eq!(
        t,
        vec![
            ("{ABC-1}".to_string(), "AA:BB:CC:DD:EE:FF".to_string()),
            ("{ABC-1}".to_string(), "00:00:00:00:00:01".to_string()),
        ]
    );
    assert_eq!(mac_for_device(&t, "\\Device\\NPF_{abc-1}").as_deref(), Some("00:00:00:00:00:01"));
    assert_eq!(mac_for_device(&t, "eth9"), None);
    let e = sysfs_mac_entry("eth0".to_string(), "aa:bb:cc:dd:ee:ff\n").unwrap();
    assert_eq!(e, ("eth0".to_string(), "AA:BB:CC:DD:EE:FF".to_string()));
    assert!(sysfs_mac_entry("lo".to_string(), " \n").is_none());
    let by_name = vec![("eth0".to_string(), "AA".to_string())];
    assert_eq!(mac_for_device(&by_name, "eth0").as_deref(), Some("AA"));
}

#[test]
fn prefixes() {
    assert_eq!(prefix_len(&[255, 255, 255, 0]), 24);
    assert_eq!(prefix_len(&[255, 255, 240, 0]), 20);
    assert_eq!(prefix_len(&[0xFF; 16]), 128);
    assert_eq!(prefix_len(&[]), 0);
    assert_eq!(format_address("10.0.0.5", Some(&[255, 255, 255, 0])), "10.0.0.5/24");
    assert_eq!(format_address("fe80::1", None), "fe80::1");
}
