use netopo::scanner::{cidr_to_host_ips, interface_from_ip_route, interface_from_route_output, parse_ports, HostAddr};

fn v4(a: u32, b: u32, c: u32, d: u32) -> HostAddr {
    HostAddr::V4((a << 24) | (b << 16) | (c << 8) | d)
}

#[test]
fn test_parse_ports_comma_separated() {
    let ports = parse_ports("22,80,443").unwrap();
    assert_eq!(ports, vec![22, 80, 443]);
}

#[test]
fn test_parse_ports_range() {
    let ports = parse_ports("1-5").unwrap();
    assert_eq!(ports, vec![1, 2, 3, 4, 5]);
}

#[test]
fn test_parse_ports_mixed() {
    let ports = parse_ports("22,80,8080-8082").unwrap();
    assert_eq!(ports, vec![22, 80, 8080, 8081, 8082]);
}

#[test]
fn test_parse_ports_single() {
    let ports = parse_ports("443").unwrap();
    assert_eq!(ports, vec![443]);
}

#[test]
fn test_parse_ports_invalid_alpha_returns_error() {
    assert!(parse_ports("abc").is_err());
}

#[test]
fn test_parse_ports_out_of_range_returns_error() {
    assert!(parse_ports("99999").is_err());
}

#[test]
fn test_parse_ports_range_out_of_range_returns_error() {
    assert!(parse_ports("1-99999").is_err());
}

#[test]
fn test_parse_ports_reversed_range_returns_error() {
    assert!(parse_ports("443-80").is_err());
}

#[test]
fn test_parse_ports_max_valid_port() {
    let ports = parse_ports("65535").unwrap();
    assert_eq!(ports, vec![65535]);
}

#[test]
fn test_parse_ports_zero() {
    let ports = parse_ports("0").unwrap();
    assert_eq!(ports, vec![0]);
}

#[test]
fn test_parse_ports_range_single_element() {
    let ports = parse_ports("80-80").unwrap();
    assert_eq!(ports, vec![80]);
}

#[test]
fn test_cidr_slash24_has_254_hosts() {
    let ips = cidr_to_host_ips("192.168.1.0/24").unwrap();
    assert_eq!(ips.len(), 254, "A /24 should have 254 host addresses");
}

#[test]
fn test_cidr_slash24_contains_first_host() {
    let ips = cidr_to_host_ips("192.168.1.0/24").unwrap();
    assert!(ips.contains(&v4(192, 168, 1, 1)));
}

#[test]
fn test_cidr_slash24_contains_last_host() {
    let ips = cidr_to_host_ips("192.168.1.0/24").unwrap();
    assert!(ips.contains(&v4(192, 168, 1, 254)));
}

#[test]
fn test_cidr_slash24_excludes_network_address() {
    let ips = cidr_to_host_ips("192.168.1.0/24").unwrap();
    assert!(!ips.contains(&v4(192, 168, 1, 0)), "Network address should be excluded");
}

#[test]
fn test_cidr_slash24_excludes_broadcast_address() {
    let ips = cidr_to_host_ips("192.168.1.0/24").unwrap();
    assert!(!ips.contains(&v4(192, 168, 1, 255)), "Broadcast address should be excluded");
}

#[test]
fn test_cidr_slash30_has_2_hosts() {
    let ips = cidr_to_host_ips("10.0.0.0/30").unwrap();
    assert_eq!(ips.len(), 2, "A /30 should have 2 host addresses");
}

#[test]
fn test_cidr_slash32_has_1_host() {
    let ips = cidr_to_host_ips("127.0.0.1/32").unwrap();
    assert_eq!(ips.len(), 1, "A /32 should have exactly 1 address");
}

#[test]
fn test_cidr_invalid_returns_error() {
    assert!(cidr_to_host_ips("not-a-cidr").is_err());
    assert!(cidr_to_host_ips("256.0.0.0/24").is_err());
    assert!(cidr_to_host_ips("192.168.1.0/33").is_err());
}

#[test]
fn test_cidr_slash16_has_65534_hosts() {
    let ips = cidr_to_host_ips("10.0.0.0/16").unwrap();
    assert_eq!(ips.len(), 65534, "A /16 should have 65534 host addresses");
}

#[test]
fn test_cidr_slash30_host_addresses() {
    let ips = cidr_to_host_ips("192.168.1.0/30").unwrap();
    assert_eq!(ips.len(), 2, "/30 should have exactly 2 host addresses");
    assert!(ips.contains(&v4(192, 168, 1, 1)), "should contain 192.168.1.1");
    assert!(ips.contains(&v4(192, 168, 1, 2)), "should contain 192.168.1.2");
}

#[test]
fn test_cidr_slash32_single_host() {
    let ips = cidr_to_host_ips("10.0.0.0/32").unwrap();
    assert_eq!(ips.len(), 1, "/32 should have exactly 1 address");
    assert_eq!(ips[0], v4(10, 0, 0, 0));
}

#[test]
fn test_cidr_invalid_string_returns_error() {
    assert!(cidr_to_host_ips("invalid").is_err(), "plain string 'invalid' should return Err");
}

#[test]
fn test_cidr_slash31_has_2_hosts() {
    let ips = cidr_to_host_ips("10.0.0.0/31").unwrap();
    assert_eq!(ips.len(), 2, "/31 should have 2 addresses");
}

#[test]
fn test_parse_ports_mixed_comma_and_range() {
    let ports = parse_ports("22,80,1-3").unwrap();
    assert_eq!(ports, vec![22, 80, 1, 2, 3]);
}

#[test]
fn test_parse_ports_empty_string_returns_error() {
    assert!(parse_ports("").is_err(), "empty string should return Err (not a valid port)");
}

#[test]
fn test_parse_ports_65536_out_of_range() {
    assert!(parse_ports("65536").is_err(), "port 65536 is out of range and should return Err");
}

#[test]
fn test_parse_ports_65535_valid() {
    let ports = parse_ports("65535").unwrap();
    assert_eq!(ports, vec![65535]);
}

#[test]
fn test_parse_ports_range_1_to_5() {
    let ports = parse_ports("1-5").unwrap();
    assert_eq!(ports, vec![1, 2, 3, 4, 5]);
}

#[test]
fn test_detect_primary_interface_macos_line_parsing() {
    let fixture = "\
   route to: default\n\
destination: default\n\
       mask: default\n\
    gateway: 192.168.1.1\n\
  interface: en0\n\
      flags: <UP,GATEWAY,DONE,STATIC,PRCLONING,GLOBAL>\n\
 recvpipe  sendpipe  ssthresh  rtt,msec    rttvar  hopcount      mtu     expire\n\
       0         0         0         0         0         0      1500         0\n";
    let found_iface = interface_from_route_output(fixture);
    assert_eq!(found_iface.as_deref(), Some("en0"));
}

#[test]
fn test_detect_primary_interface_linux_line_parsing() {
    let fixture = "default via 192.168.1.1 dev eth0 proto dhcp src 192.168.1.100 metric 100\n";
    let found_iface = interface_from_ip_route(fixture);
    assert_eq!(found_iface.as_deref(), Some("eth0"));
}

#[test]
fn test_detect_primary_interface_macos_missing_interface_line() {
    let fixture = "route to: default\ngateway: 192.168.1.1\n";
    let found_iface = interface_from_route_output(fixture);
    assert!(found_iface.is_none());
}

#[test]
fn test_detect_primary_interface_linux_no_dev_token() {
    let fixture = "default via 192.168.1.1 proto dhcp\n";
    let found_iface = interface_from_ip_route(fixture);
    assert!(found_iface.is_none());
}
