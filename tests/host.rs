use appctrl::host::{
    collate_ports, kill_by_name_outcome, kill_by_pid_outcome, listening_ports, listing_shows,
    name_for_pid, parse_netstat, parse_tasklist, HostError, PortRecord, Protocol,
};
use appctrl::icon::{bgra_to_rgba, icon_data_url, png_data_url};

const TASKLIST: &str = "\"System Idle Process\",\"0\",\"Services\",\"0\",\"8 K\"\r\n\"nginx.exe\",\"1234\",\"Console\",\"1\",\"12,345 K\"\r\n\"dns.exe\",\"77\",\"Services\",\"0\",\"2,000 K\"\r\nINFO: nothing\r\n";

const NETSTAT: &str = "\r\nActive Connections\r\n\r\n  Proto  Local Address          Foreign Address        State           PID\r\n  TCP    0.0.0.0:8080           0.0.0.0:0              LISTENING       1234\r\n  TCP    0.0.0.0:80             0.0.0.0:0              LISTENING       1234\r\n  TCP    [::]:80                [::]:0                 LISTENING       1234\r\n  TCP    127.0.0.1:5000         127.0.0.1:6000         ESTABLISHED     1234\r\n  UDP    0.0.0.0:53             *:*                                    77\r\n  UDP    0.0.0.0:53             *:*                                    999\r\n";

fn rec(port: u16, pid: u32, name: &str, protocol: Protocol) -> PortRecord {
    PortRecord { port, pid, name: name.to_string(), protocol }
}

#[test]
fn kill_by_name_of_missing_process_succeeds() {
    let r = kill_by_name_outcome(false, "ERROR: The process \"ghost.exe\" not found.");
    assert_eq!(r, Ok(()));
    assert_eq!(kill_by_name_outcome(true, ""), Ok(()));
    assert_eq!(
        kill_by_name_outcome(false, "ERROR: Access is denied."),
        Err(HostError::Failed("ERROR: Access is denied.".to_string()))
    );
    assert_eq!(kill_by_pid_outcome(false, "no such pid"), Err(HostError::Failed("no such pid".to_string())));
    assert_eq!(kill_by_pid_outcome(true, ""), Ok(()));
    assert_eq!(HostError::Unsupported.message(), "Not supported on non-Windows yet");
}

#[test]
fn kill_by_pid_of_missing_process_succeeds() {
    let r = kill_by_pid_outcome(false, "ERROR: The process \"4242\" not found.");
    assert_eq!(r, Ok(()));
}

#[test]
fn tasklist_names_by_pid() {
    let t = parse_tasklist(TASKLIST);
    assert_eq!(t.len(), 3);
    assert_eq!(t[1], (1234, "nginx.exe".to_string()));
    assert_eq!(name_for_pid(&t, 77), "dns.exe");
    assert_eq!(name_for_pid(&t, 5), "Unknown");
}

#[test]
fn netstat_lines_become_records() {
    let t = parse_tasklist(TASKLIST);
    let raw = parse_netstat(NETSTAT, &t);
    let got: Vec<(u16, u32, String, Protocol)> =
        raw.iter().map(|r| (r.port, r.pid, r.name.clone(), r.protocol)).collect();
    assert_eq!(
        got,
        vec![
            (8080, 1234, "nginx.exe".to_string(), Protocol::Tcp),
            (80, 1234, "nginx.exe".to_string(), Protocol::Tcp),
            (80, 1234, "nginx.exe".to_string(), Protocol::Tcp),
            (53, 77, "dns.exe".to_string(), Protocol::Udp),
            (53, 999, "Unknown".to_string(), Protocol::Udp),
        ]
    );
}

#[test]
fn listening_ports_are_sorted_without_duplicates() {
    let ports = listening_ports(TASKLIST, NETSTAT);
    let got: Vec<(u16, u32, Protocol)> = ports.iter().map(|r| (r.port, r.pid, r.protocol)).collect();
    assert_eq!(
        got,
        vec![(53, 77, Protocol::Udp), (53, 999, Protocol::Udp), (80, 1234, Protocol::Tcp), (8080, 1234, Protocol::Tcp)]
    );
    assert_eq!(ports[2].protocol.name(), "TCP");
}

#[test]
fn collation_drops_non_adjacent_repeats() {
    let raw = vec![
        rec(80, 1, "a", Protocol::Tcp),
        rec(80, 2, "b", Protocol::Tcp),
        rec(80, 1, "c", Protocol::Tcp),
        rec(22, 1, "d", Protocol::Tcp),
        rec(80, 1, "e", Protocol::Udp),
    ];
    let out = collate_ports(&raw);
    let got: Vec<(u16, u32, String)> = out.iter().map(|r| (r.port, r.pid, r.name.clone())).collect();
    assert_eq!(
        got,
        vec![(22, 1, "d".to_string()), (80, 1, "a".to_string()), (80, 2, "b".to_string()), (80, 1, "e".to_string())]
    );
    assert!(collate_ports(&Vec::new()).is_empty());
}

#[test]
fn listing_is_searched_case_insensitively() {
    let listing = "NOTEPAD.EXE                   4242 Console                    1     12,000 K";
    assert!(listing_shows(listing, "C:/Windows/notepad.exe"));
    assert!(!listing_shows("INFO: No tasks are running", "C:/Windows/notepad.exe"));
    assert!(!listing_shows(listing, "/"));
}

#[test]
fn pixels_swap_blue_and_red() {
    let mut px = vec![1u8, 2, 3, 4, 5, 6, 7, 8, 9, 10, 11];
    bgra_to_rgba(&mut px);
    assert_eq!(px, vec![3, 2, 1, 4, 7, 6, 5, 8, 11, 10, 9]);
}

#[test]
fn data_url_is_base64_of_png() {
    assert_eq!(png_data_url(&vec![1, 2, 3]), "data:image/png;base64,AQID");
    assert_eq!(png_data_url(&vec![0xff]), "data:image/png;base64,/w==");
    let url = icon_data_url(1, 1, vec![0, 0, 255, 255]).unwrap();
    assert!(url.starts_with("data:image/png;base64,iVBORw0KGgo"));
    let url = icon_data_url(2, 1, vec![1, 2, 3, 4, 5, 6, 7, 8, 9, 9]).unwrap();
    assert!(url.starts_with("data:image/png;base64,iVBORw0KGgo"));
    assert_eq!((url.len() - "data:image/png;base64,".len()) % 4, 0);
}

#[test]
fn icon_rejects_bad_bitmaps() {
    assert_eq!(icon_data_url(0, 4, vec![]), Err("Invalid icon dimensions".to_string()));
    assert_eq!(icon_data_url(2, 2, vec![0; 15]), Err("Failed to create image".to_string()));
}

#[test]
fn process_list_skips_system_and_sorts_by_name() {
    let out = "\"svchost.exe\",\"900\",\"Services\",\"0\",\"5,000 K\"\r\n\"zeta.exe\",\"5\",\"Console\",\"1\",\"1 K\"\r\n\"Alpha.exe\",\"6\",\"Console\",\"1\",\"2 K\"\r\n\"SYSTEM\",\"4\",\"Services\",\"0\",\"100 K\"\r\n\"beta.exe\",\"x\",\"Console\",\"1\",\"3 K\"\r\n\"alpha.exe\",\"7\",\"Console\",\"1\",\"4 K\"\r\n\"short\",\"8\"\r\n";
    let list = appctrl::host::list_processes(out);
    let got: Vec<(u32, String, String)> =
        list.iter().map(|p| (p.pid, p.name.clone(), p.memory.clone())).collect();
    assert_eq!(
        got,
        vec![
            (6, "Alpha.exe".to_string(), "2 K".to_string()),
            (7, "alpha.exe".to_string(), "4 K".to_string()),
            (5, "zeta.exe".to_string(), "1 K".to_string()),
        ]
    );
}
