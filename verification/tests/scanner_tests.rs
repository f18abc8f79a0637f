use port_scan_rs::scanner::{
    banner_text,
    banner_from, fill_process_names, filter_entries, hex_to_ipv4, known_service, local_port_entries,
    local_row, parse_port_range, parse_socket_table, parse_tasklist_csv, parse_windows_ports, scan_result,
    scan_rows, socket_table_ok, sort_entries_by_port, sort_scan_results, wildcard_to_star,
    windows_local_entries, PortEntry, PortRangeError, ScanResult,
};

fn ports(spec: &str) -> Vec<u16> {
    match parse_port_range(spec) {
        Ok(v) => v,
        Err(e) => panic!("unexpected error {:?}", e),
    }
}

fn entry(proto: &str, port: u16, state: &str, pid: Option<u32>, process: Option<&str>) -> PortEntry {
    PortEntry {
        protocol: proto.to_string(),
        local_addr: "127.0.0.1".to_string(),
        local_port: port,
        remote_addr: "-".to_string(),
        remote_port: 0,
        state: state.to_string(),
        pid,
        process: process.map(|p| p.to_string()),
    }
}

#[test]
fn port_list_with_ranges() {
    assert_eq!(ports("80,443,8080-8082"), vec![80, 443, 8080, 8081, 8082]);
    assert_eq!(ports(" 22 , 80 - 81 ,,"), vec![22, 80, 81]);
    assert_eq!(ports(""), Vec::<u16>::new());
    assert_eq!(ports("65535-65535"), vec![65535]);
    assert_eq!(ports("+7"), vec![7]);
    assert_eq!(ports("5,5"), vec![5, 5]);
}

#[test]
fn port_list_concatenation() {
    let a = ports("1-3");
    let b = ports("10,2");
    let mut ab = a.clone();
    ab.extend(b);
    assert_eq!(ports("1-3,10,2"), ab);
}

#[test]
fn port_list_errors() {
    assert!(matches!(parse_port_range("abc"), Err(PortRangeError::InvalidPort(p)) if p == "abc"));
    assert!(matches!(parse_port_range("80,70000"), Err(PortRangeError::InvalidPort(p)) if p == "70000"));
    assert!(
        matches!(parse_port_range("90-80"), Err(PortRangeError::InvalidRange(a, b)) if a == "90" && b == "80")
    );
    assert!(matches!(parse_port_range("80-x"), Err(PortRangeError::InvalidPort(p)) if p == "x"));
    assert!(matches!(parse_port_range("-5"), Err(PortRangeError::InvalidPort(p)) if p.is_empty()));
    assert!(matches!(parse_port_range("1 -2-3"), Err(PortRangeError::InvalidPort(p)) if p == "2-3"));
    assert!(matches!(parse_port_range("x,90-80"), Err(PortRangeError::InvalidPort(p)) if p == "x"));
}

#[test]
fn well_known_services() {
    assert_eq!(known_service(22), Some("ssh"));
    assert_eq!(known_service(8080), Some("http-proxy"));
    assert_eq!(known_service(27017), Some("mongodb"));
    assert_eq!(known_service(12345), None);
}

#[test]
fn hex_addresses() {
    assert_eq!(hex_to_ipv4("0100007F"), "1.0.0.127");
    assert_eq!(hex_to_ipv4("00000000"), "0.0.0.0");
    assert_eq!(hex_to_ipv4("zz"), "0.0.0.0");
    assert_eq!(hex_to_ipv4("C0A80001"), "192.168.0.1");
}

const TCP_TABLE: &str = "  sl  local_address rem_address   st tx_queue rx_queue tr tm->when retrnsmt   uid  timeout inode
   0: 0100007F:0CEA 00000000:0000 0A 00000000:00000000 00:00000000 00000000  1000        0 1
   1: 00000000:0016 00000000:0000 0A 00000000:00000000 00:00000000 00000000     0        0 2
   2: 0100007F:A1B2 0100007F:0CEA 01 00000000:00000000 00:00000000 00000000  1000        0 3
   3: short line
";

const UDP_TABLE: &str = "  sl  local_address rem_address   st tx_queue rx_queue tr tm->when retrnsmt   uid  timeout inode
   5: 00000000:0035 00000000:0000 07 00000000:00000000 00:00000000 00000000     0        0 4
";

#[test]
fn socket_tables_are_read() {
    assert!(socket_table_ok(TCP_TABLE));
    let t = parse_socket_table(TCP_TABLE, true);
    assert_eq!(t.len(), 3);
    assert_eq!(t[0].protocol, "TCP");
    assert_eq!(t[0].local_addr, "1.0.0.127");
    assert_eq!(t[0].local_port, 3306);
    assert_eq!(t[0].state, "LISTEN");
    assert_eq!(t[1].local_addr, "0.0.0.0");
    assert_eq!(t[1].local_port, 22);
    assert_eq!(t[2].state, "ESTABLISHED");
    assert_eq!(t[2].remote_addr, "-");
    let u = parse_socket_table(UDP_TABLE, false);
    assert_eq!(u.len(), 1);
    assert_eq!(u[0].state, "UNCONN");
    assert_eq!(u[0].local_port, 53);
}

#[test]
fn malformed_table_row_is_detected() {
    let bad = "header\n 0: 0100007F 00000000:0000 0A a b c d e f g\n";
    assert!(!socket_table_ok(bad));
    assert!(socket_table_ok(""));
}

#[test]
fn local_entries_are_sorted_by_port() {
    let e = local_port_entries(Some(TCP_TABLE.to_string()), Some(UDP_TABLE.to_string()));
    let ps: Vec<u16> = e.iter().map(|x| x.local_port).collect();
    assert_eq!(ps, vec![22, 53, 3306, 41394]);
    let none = local_port_entries(None, None);
    assert!(none.is_empty());
}

#[test]
fn sorting_is_stable() {
    let v = vec![
        entry("TCP", 80, "LISTEN", Some(1), None),
        entry("UDP", 22, "UNCONN", None, None),
        entry("UDP", 80, "UNCONN", None, None),
    ];
    let s = sort_entries_by_port(v);
    assert_eq!(s[0].local_port, 22);
    assert_eq!(s[1].protocol, "TCP");
    assert_eq!(s[2].protocol, "UDP");
}

#[test]
fn entries_are_filtered() {
    let v = vec![
        entry("TCP", 80, "LISTEN", Some(10), Some("Nginx.exe")),
        entry("TCP", 81, "ESTABLISHED", Some(11), Some("nginx")),
        entry("UDP", 53, "LISTEN", None, None),
    ];
    assert_eq!(filter_entries(&v, true, &None, None), vec![0, 2]);
    assert_eq!(filter_entries(&v, false, &Some("NGINX".to_string()), None), vec![0, 1]);
    assert_eq!(filter_entries(&v, true, &Some("nginx".to_string()), Some(10)), vec![0]);
    assert_eq!(filter_entries(&v, false, &None, Some(12)), Vec::<usize>::new());
    assert_eq!(filter_entries(&v, false, &Some(String::new()), None), vec![0, 1, 2]);
}

#[test]
fn local_rows_show_the_process() {
    let r = local_row(&entry("TCP", 80, "LISTEN", Some(10), Some("nginx")));
    assert_eq!(r, vec!["TCP", "127.0.0.1:80", "LISTEN", "nginx (10)"]);
    assert_eq!(local_row(&entry("TCP", 1, "X", None, Some("a")))[3], "a");
    assert_eq!(local_row(&entry("TCP", 1, "X", Some(7), None))[3], "pid 7");
    assert_eq!(local_row(&entry("TCP", 1, "X", None, None))[3], "-");
}

#[test]
fn banners() {
    assert_eq!(banner_from(b"SSH-2.0-OpenSSH\r\n").as_deref(), Some("SSH-2.0-OpenSSH\r\n"));
    assert_eq!(banner_from(b""), None);
    let long = vec![b'a'; 100];
    assert_eq!(banner_from(&long).unwrap().chars().count(), 80);
    assert_eq!(banner_from(&[0xFF]).as_deref(), Some("\u{FFFD}"));
}

#[test]
fn scan_results_and_rows() {
    let r = scan_result(22, true, Some("SSH-2.0".to_string()));
    assert_eq!(r.service.as_deref(), Some("ssh"));
    let results: Vec<ScanResult> = vec![
        scan_result(8080, true, None),
        scan_result(22, true, Some("SSH-2.0".to_string())),
        scan_result(23, false, None),
        scan_result(12345, true, None),
    ];
    let sorted = sort_scan_results(results);
    let order: Vec<u16> = sorted.iter().map(|r| r.port).collect();
    assert_eq!(order, vec![22, 23, 8080, 12345]);
    let rows = scan_rows(&sorted);
    assert_eq!(rows.len(), 3);
    assert_eq!(rows[0], vec!["22", "ssh", "SSH-2.0"]);
    assert_eq!(rows[1], vec!["8080", "http-proxy", "-"]);
    assert_eq!(rows[2], vec!["12345", "-", "-"]);
}

#[test]
fn wildcards() {
    assert_eq!(wildcard_to_star("0.0.0.0"), "*");
    assert_eq!(wildcard_to_star("::"), "*");
    assert_eq!(wildcard_to_star("*"), "*");
    assert_eq!(wildcard_to_star("10.1.1.1"), "10.1.1.1");
}

const PS_PORTS: &str = "TCP|0.0.0.0|135|Listen|0.0.0.0|0|1000\r
TCP|192.168.1.5|50000|Established|20.1.2.3|443|4321\r
\r
UDP|::|5353|LISTEN|-|0|x\r
bad|line\r
";

#[test]
fn windows_socket_list() {
    let e = parse_windows_ports(PS_PORTS);
    assert_eq!(e.len(), 3);
    assert_eq!(e[0].local_addr, "*");
    assert_eq!(e[0].local_port, 135);
    assert_eq!(e[0].remote_addr, "-");
    assert_eq!(e[0].remote_port, 0);
    assert_eq!(e[0].pid, Some(1000));
    assert_eq!(e[1].remote_addr, "20.1.2.3");
    assert_eq!(e[1].remote_port, 443);
    assert_eq!(e[1].state, "Established");
    assert_eq!(e[2].local_addr, "*");
    assert_eq!(e[2].pid, None);
}

const TASKLIST: &str = "\"System Idle Process\",\"0\",\"Services\",\"0\",\"8 K\"\r
\"svchost.exe\",\"1000\",\"Services\",\"0\",\"10,000 K\"\r
\"chrome.exe\",\"4321\",\"Console\",\"1\",\"100,000 K\"\r
\"later.exe\",\"1000\",\"Console\",\"1\",\"1 K\"\r
garbage\r
";

#[test]
fn tasklist_and_process_names() {
    let pairs = parse_tasklist_csv(TASKLIST);
    assert_eq!(pairs.len(), 3);
    assert_eq!(pairs.get(&0).map(|s| s.as_str()), Some("System Idle Process"));
    assert_eq!(pairs.get(&4321).map(|s| s.as_str()), Some("chrome.exe"));
    assert_eq!(pairs.get(&1000).map(|s| s.as_str()), Some("later.exe"));
    let mut e = parse_windows_ports(PS_PORTS);
    fill_process_names(&mut e, &pairs);
    assert_eq!(e[0].process.as_deref(), Some("later.exe"));
    assert_eq!(e[1].process.as_deref(), Some("chrome.exe"));
    assert_eq!(e[2].process, None);
    let all = windows_local_entries(PS_PORTS, Some(TASKLIST.to_string()));
    let order: Vec<u16> = all.iter().map(|x| x.local_port).collect();
    assert_eq!(order, vec![135, 5353, 50000]);
    assert_eq!(all[2].process.as_deref(), Some("chrome.exe"));
}

#[test]
fn banners_of_texts() {
    assert_eq!(banner_text(""), None);
    assert_eq!(banner_text("220 ready").as_deref(), Some("220 ready"));
    assert_eq!(banner_text(&"界".repeat(90)).unwrap().chars().count(), 80);
}

#[test]
fn port_list_skips_empty_pieces() {
    assert_eq!(ports(" 22 , ,80 "), vec![22, 80]);
    assert_eq!(ports(","), Vec::<u16>::new());
}
