use sudonim::addr::{check_ip, check_ipv4, check_ipv6, check_mac};
use sudonim::arp::{parse_neighbor_table, parse_nmap_output, LineError, Neighbor};
use sudonim::resolve::{mac_eq, resolve};

#[test]
fn parser_accepts_well_formed_line() {
    let n = Neighbor::new("192.168.1.42 dev eth0 lladdr d8:3a:dd:70:5f:62 REACHABLE").unwrap();
    assert_eq!(n.ip, "192.168.1.42");
    assert_eq!(n.mac, "d8:3a:dd:70:5f:62");
}

#[test]
fn parser_accepts_extra_trailing_tokens() {
    let n = Neighbor::new("fe80::1 dev wlan0 lladdr aa:bb:cc:dd:ee:ff router REACHABLE").unwrap();
    assert_eq!(n.ip, "fe80::1");
    assert_eq!(n.mac, "aa:bb:cc:dd:ee:ff");
}

#[test]
fn line_errors_name_the_first_failure() {
    assert_eq!(Neighbor::new("").unwrap_err(), LineError::MissingIp);
    assert_eq!(Neighbor::new("10.0.0.1").unwrap_err(), LineError::MissingDevice);
    assert_eq!(Neighbor::new("10.0.0.1 dev").unwrap_err(), LineError::MissingInterface);
    assert_eq!(Neighbor::new("10.0.0.1 dev eth0").unwrap_err(), LineError::MissingLladdr);
    assert_eq!(
        Neighbor::new("10.0.0.1 dev eth0 lladdr").unwrap_err(),
        LineError::MissingMac
    );
    assert_eq!(
        Neighbor::new("10.0.0.1 dev eth0 lladdr aa:bb:cc:dd:ee:ff").unwrap_err(),
        LineError::MissingStatus
    );
    assert_eq!(
        Neighbor::new("bad dev eth0 lladdr aa:bb:cc:dd:ee:ff STALE").unwrap_err(),
        LineError::InvalidIp
    );
    assert_eq!(
        Neighbor::new("10.0.0.1 dev eth0 lladdr nope STALE").unwrap_err(),
        LineError::InvalidMac
    );
}

#[test]
fn parser_drops_malformed_lines_and_continues() {
    let text = "192.168.1.1 dev eth0 lladdr aa:bb:cc:dd:ee:ff REACHABLE\n\
                not-an-ip dev eth0 lladdr aa:bb:cc:dd:ee:01 STALE\n\
                192.168.1.9 dev eth0\n\
                \n\
                192.168.1.3 dev eth0 lladdr 11:22:33:44:55:66 STALE";
    let ns = parse_neighbor_table(text);
    assert_eq!(ns.len(), 2);
    assert_eq!(ns[0].ip, "192.168.1.1");
    assert_eq!(ns[0].mac, "aa:bb:cc:dd:ee:ff");
    assert_eq!(ns[1].ip, "192.168.1.3");
    assert_eq!(ns[1].mac, "11:22:33:44:55:66");
}

#[test]
fn empty_table_yields_no_records() {
    assert_eq!(parse_neighbor_table("").len(), 0);
}

#[test]
fn ipv4_validation() {
    assert!(check_ipv4("0.0.0.0"));
    assert!(check_ipv4("255.255.255.255"));
    assert!(check_ipv4("192.168.1.7"));
    assert!(!check_ipv4("256.1.1.1"));
    assert!(!check_ipv4("01.2.3.4"));
    assert!(!check_ipv4("1.2.3"));
    assert!(!check_ipv4("1.2.3.4.5"));
    assert!(!check_ipv4(""));
    assert!(!check_ipv4("a.b.c.d"));
    assert!(!check_ipv4("1.2.3."));
}

#[test]
fn ipv6_validation() {
    assert!(check_ipv6("::"));
    assert!(check_ipv6("::1"));
    assert!(check_ipv6("fe80::1"));
    assert!(check_ipv6("1:2:3:4:5:6:7:8"));
    assert!(check_ipv6("2001:db8:0:1:1:1:1:1"));
    assert!(check_ipv6("1::"));
    assert!(check_ipv6("1:2:3:4:5:6:7::"));
    assert!(check_ipv6("::2:3:4:5:6:7:8"));
    assert!(!check_ipv6(":::"));
    assert!(!check_ipv6("1:2"));
    assert!(!check_ipv6("12345::"));
    assert!(!check_ipv6("1:2:3:4:5:6:7:8:9"));
    assert!(!check_ipv6("g::1"));
    assert!(!check_ipv6(":1:2:3:4:5:6:7"));
    assert!(!check_ipv6("1:2:3:4:5:6:7:"));
}

#[test]
fn ip_validation_accepts_either_family() {
    assert!(check_ip("192.168.1.42"));
    assert!(check_ip("fe80::1"));
    assert!(!check_ip("192.168.1."));
    assert!(!check_ip("somehost"));
}

#[test]
fn mac_validation() {
    assert!(check_mac("d8:3a:dd:70:5f:62"));
    assert!(check_mac("0:1:2:3:4:5"));
    assert!(check_mac("AA:BB:CC:DD:EE:FF"));
    assert!(!check_mac("d8:3a:dd:70:5f"));
    assert!(!check_mac("d8:3a:dd:70:5f:62:00"));
    assert!(!check_mac("d83add705f62"));
    assert!(!check_mac("d8x:3a:dd:70:5f:62"));
    assert!(!check_mac("d8a:3a:dd:70:5f:62"));
    assert!(!check_mac("d8:3a:dd:70:5f:"));
}

#[test]
fn nmap_output_parsing() {
    let text = "Starting scan\n\
                Nmap scan report for router.lan (192.168.1.1)\n\
                Host is up (0.0042s latency).\n\
                Nmap scan report for 192.168.1.7\n\
                Nmap scan report for pi.lan (10.0.0.2)\n";
    let ips = parse_nmap_output(text);
    assert_eq!(ips, vec!["192.168.1.1".to_string(), "10.0.0.2".to_string()]);
}

#[test]
fn mac_comparison_folds_hex_case() {
    assert!(mac_eq("AA:BB:CC:DD:EE:FF", "aa:bb:cc:dd:ee:ff"));
    assert!(mac_eq("d8:3a:dd:70:5f:62", "D8:3A:DD:70:5F:62"));
    assert!(!mac_eq("aa:bb:cc:dd:ee:ff", "aa:bb:cc:dd:ee:f0"));
    assert!(!mac_eq("aa:bb:cc:dd:ee:ff", "aa:bb:cc:dd:ee"));
}

#[test]
fn resolve_is_case_insensitive_and_takes_first_match() {
    let ns = vec![
        Neighbor { ip: "10.0.0.5".to_string(), mac: "11:22:33:44:55:66".to_string() },
        Neighbor { ip: "10.0.0.1".to_string(), mac: "AA:BB:CC:DD:EE:FF".to_string() },
        Neighbor { ip: "10.0.0.2".to_string(), mac: "aa:bb:cc:dd:ee:ff".to_string() },
    ];
    assert_eq!(resolve("aa:bb:cc:dd:ee:ff", &ns).unwrap(), "10.0.0.1");
    assert!(resolve("00:00:00:00:00:00", &ns).is_none());
}

#[test]
fn neighbor_to_device_keeps_ip_and_mac() {
    let n = Neighbor { ip: "10.0.0.7".to_string(), mac: "aa:bb:cc:dd:ee:ff".to_string() };
    let d = n.to_device("pi".to_string(), "Bird".to_string());
    assert_eq!(d.user, "pi");
    assert_eq!(d.ip_address, "10.0.0.7");
    assert_eq!(d.mac_address, "aa:bb:cc:dd:ee:ff");
    assert_eq!(d.name, "Bird");
}
