use netopo::connection_tracker::{
    is_loopback, is_private, parse_hex_addr, parse_netstat_line, parse_netstat_output,
    parse_proc_net, should_include, split_addr_port,
    test_parse_proc_net_tcp, test_tcp_state_from_hex,
};
use netopo::data_manager::Edge;

const MACOS_TCP_FIXTURE: &str = r#"Active Internet connections (including servers)
Proto Recv-Q Send-Q  Local Address          Foreign Address        (state)
tcp4       0      0  192.168.1.100.55231    192.168.1.1.443        ESTABLISHED
tcp4       0      0  192.168.1.100.55232    8.8.8.8.443            ESTABLISHED
tcp4       0      0  *.8080                 *.*                    LISTEN
tcp6       0      0  *.22                   *.*                    LISTEN
tcp4       0      0  127.0.0.1.3306         127.0.0.1.55100        ESTABLISHED
"#;

const MACOS_UDP_FIXTURE: &str = r#"Active Internet connections (including servers)
Proto Recv-Q Send-Q  Local Address          Foreign Address
udp4       0      0  192.168.1.100.63412    8.8.8.8.53
udp4       0      0  *.5353                 *.*
"#;

const PROC_NET_TCP_FIXTURE: &str =
    "  sl  local_address rem_address   st tx_queue rx_queue tr tm->when retrnsmt   uid  timeout inode\n\
   0: 0100007F:1538 00000000:0000 0A 00000000:00000000 00:00000000 00000000   1000        0 12345 1 0000000000000000 100 0 0 10 0\n\
   1: 6401A8C0:D8F1 0101A8C0:01BB 01 00000000:00000000 00:00000000 00000000   1000        0 23456 1 0000000000000000 20 4 24 10 -1\n";

fn edge(src: &str, dst: &str, proto: &str, src_port: u16, dst_port: u16, state: Option<&str>) -> Edge {
    Edge {
        src: src.to_string(),
        dst: dst.to_string(),
        protocol: proto.to_string(),
        src_port,
        dst_port,
        state: state.map(|s| s.to_string()),
        count: 1,
    }
}

#[test]
fn test_is_loopback() {
    assert!(is_loopback("127.0.0.1"));
    assert!(is_loopback("127.0.0.2"));
    assert!(is_loopback("::1"));
    assert!(is_loopback("0.0.0.0"));
    assert!(!is_loopback("192.168.1.1"));
    assert!(!is_loopback("10.0.0.1"));
}

#[test]
fn test_is_private() {
    assert!(is_private("192.168.1.1"));
    assert!(is_private("10.0.0.1"));
    assert!(is_private("172.16.0.1"));
    assert!(is_private("172.31.0.1"));
    assert!(!is_private("8.8.8.8"));
    assert!(!is_private("1.1.1.1"));
}

#[test]
fn test_should_include_exclude_loopback() {
    let loopback_edge = edge("127.0.0.1", "127.0.0.1", "TCP", 12345, 80, None);
    let external_edge = edge("192.168.1.100", "192.168.1.1", "TCP", 54321, 443, None);
    assert!(!should_include(&loopback_edge, false, true));
    assert!(should_include(&external_edge, false, true));
    assert!(should_include(&loopback_edge, false, false));
}

#[test]
fn test_should_include_local_only() {
    let public_edge = edge("192.168.1.100", "8.8.8.8", "UDP", 63412, 53, None);
    let private_edge = edge("192.168.1.100", "192.168.1.1", "TCP", 54321, 443, None);
    assert!(!should_include(&public_edge, true, false));
    assert!(should_include(&private_edge, true, false));
}

#[test]
fn test_macos_parse_established_tcp() {
    let edges = parse_netstat_output(MACOS_TCP_FIXTURE, "TCP");
    let established: Vec<_> = edges
        .iter()
        .filter(|e| e.state.as_deref() == Some("ESTABLISHED"))
        .collect();
    assert_eq!(established.len(), 3);
}

#[test]
fn test_macos_parse_tcp_src_dst() {
    let edges = parse_netstat_output(MACOS_TCP_FIXTURE, "TCP");
    let e = edges
        .iter()
        .find(|e| e.dst == "192.168.1.1")
        .expect("should find edge to 192.168.1.1");
    assert_eq!(e.src, "192.168.1.100");
    assert_eq!(e.src_port, 55231);
    assert_eq!(e.dst_port, 443);
    assert_eq!(e.protocol, "TCP");
}

#[test]
fn test_macos_parse_udp_no_state() {
    let edges = parse_netstat_output(MACOS_UDP_FIXTURE, "UDP");
    assert!(!edges.is_empty());
    assert!(edges.iter().all(|e| e.state.is_none()));
    assert!(edges.iter().all(|e| e.protocol == "UDP"));
}

#[test]
fn test_macos_parse_wildcard_address_listen() {
    let parsed = split_addr_port("*.8080");
    assert_eq!(parsed, Some(("0.0.0.0".to_string(), 8080)));
}

#[test]
fn test_macos_addr_parser_ipv4() {
    assert_eq!(
        split_addr_port("192.168.1.100.55231"),
        Some(("192.168.1.100".to_string(), 55231))
    );
}

#[test]
fn test_macos_addr_parser_wildcard_star_star() {
    assert_eq!(split_addr_port("*.*"), None);
}

#[test]
fn test_macos_addr_parser_wildcard_port() {
    assert_eq!(split_addr_port("*.8080"), Some(("0.0.0.0".to_string(), 8080)));
}

#[test]
fn test_macos_edge_count_initial_value() {
    let edges = parse_netstat_output(MACOS_TCP_FIXTURE, "TCP");
    assert!(edges.iter().all(|e| e.count == 1));
}

#[test]
fn test_macos_all_protocol_classified_as_tcp() {
    let edges = parse_netstat_output(MACOS_TCP_FIXTURE, "TCP");
    assert!(edges.iter().all(|e| e.protocol == "TCP"));
}

#[test]
fn test_linux_hex_to_ipv4_loopback() {
    let (ip, _port) = netopo::connection_tracker::test_parse_hex_addr_ipv4("0100007F:1538").unwrap();
    assert_eq!(ip, "127.0.0.1");
}

#[test]
fn test_linux_hex_to_ipv4_lan() {
    let (ip, port) = netopo::connection_tracker::test_parse_hex_addr_ipv4("6401A8C0:D8F1").unwrap();
    assert_eq!(ip, "192.168.1.100");
    assert_eq!(port, 0xD8F1);
}

#[test]
fn test_linux_hex_to_ipv4_router() {
    let (ip, port) = netopo::connection_tracker::test_parse_hex_addr_ipv4("0101A8C0:01BB").unwrap();
    assert_eq!(ip, "192.168.1.1");
    assert_eq!(port, 443);
}

#[test]
fn test_linux_tcp_state_mapping() {
    assert_eq!(test_tcp_state_from_hex("01"), "ESTABLISHED");
    assert_eq!(test_tcp_state_from_hex("0A"), "LISTEN");
    assert_eq!(test_tcp_state_from_hex("06"), "TIME_WAIT");
    assert_eq!(test_tcp_state_from_hex("02"), "SYN_SENT");
    assert_eq!(test_tcp_state_from_hex("FF"), "UNKNOWN");
}

#[test]
fn test_linux_parse_proc_tcp_listen() {
    let edges = test_parse_proc_net_tcp(PROC_NET_TCP_FIXTURE);
    let listen = edges
        .iter()
        .find(|e| e.state.as_deref() == Some("LISTEN"))
        .expect("should have a LISTEN entry");
    assert_eq!(listen.src, "127.0.0.1");
    assert_eq!(listen.src_port, 0x1538);
}

#[test]
fn test_linux_parse_proc_tcp_established() {
    let edges = test_parse_proc_net_tcp(PROC_NET_TCP_FIXTURE);
    let est = edges
        .iter()
        .find(|e| e.state.as_deref() == Some("ESTABLISHED"))
        .expect("should have an ESTABLISHED entry");
    assert_eq!(est.src, "192.168.1.100");
    assert_eq!(est.dst, "192.168.1.1");
    assert_eq!(est.dst_port, 443);
}

#[test]
fn test_linux_parse_proc_tcp_count() {
    let edges = test_parse_proc_net_tcp(PROC_NET_TCP_FIXTURE);
    assert_eq!(edges.len(), 2);
    assert!(edges.iter().all(|e| e.count == 1));
}

#[test]
fn test_linux_parse_proc_tcp_protocol() {
    let edges = test_parse_proc_net_tcp(PROC_NET_TCP_FIXTURE);
    assert!(edges.iter().all(|e| e.protocol == "TCP"));
}

#[test]
fn test_parse_netstat_output_empty_string() {
    let edges = parse_netstat_output("", "TCP");
    assert!(edges.is_empty(), "empty netstat output should produce empty Vec");
}

#[test]
fn test_parse_netstat_output_header_only() {
    let header_only = "Active Internet connections (including servers)\n\
Proto Recv-Q Send-Q  Local Address          Foreign Address        (state)\n";
    let edges = parse_netstat_output(header_only, "TCP");
    assert!(edges.is_empty(), "header-only netstat output should produce empty Vec");
}

#[test]
fn test_parse_proc_net_tcp_empty_string() {
    let edges = test_parse_proc_net_tcp("");
    assert!(edges.is_empty(), "empty /proc/net/tcp content should produce empty Vec");
}

#[test]
fn test_parse_proc_net_tcp_header_only() {
    let header_only =
        "  sl  local_address rem_address   st tx_queue rx_queue tr tm->when retrnsmt   uid  timeout inode\n";
    let edges = test_parse_proc_net_tcp(header_only);
    assert!(edges.is_empty(), "header-only /proc/net/tcp content should produce empty Vec");
}

#[test]
fn test_should_include_local_only_filters_public_ip() {
    let public_edge = edge("192.168.1.100", "8.8.8.8", "TCP", 54321, 443, Some("ESTABLISHED"));
    assert!(
        !should_include(&public_edge, true, false),
        "public IP 8.8.8.8 should be filtered when local_only=true"
    );
}

#[test]
fn test_should_include_local_only_keeps_private_192_168() {
    let private_edge = edge("192.168.1.100", "192.168.1.1", "TCP", 54321, 80, Some("ESTABLISHED"));
    assert!(
        should_include(&private_edge, true, false),
        "192.168.x.x should be kept when local_only=true"
    );
}

#[test]
fn test_should_include_exclude_loopback_filters_127() {
    let loopback_edge = edge("127.0.0.1", "127.0.0.1", "TCP", 12345, 5432, Some("ESTABLISHED"));
    assert!(
        !should_include(&loopback_edge, false, true),
        "127.0.0.1 connections should be filtered when exclude_loopback=true"
    );
}

#[test]
fn test_should_include_exclude_loopback_keeps_public() {
    let public_edge = edge("192.168.1.100", "8.8.8.8", "UDP", 63412, 53, None);
    assert!(
        should_include(&public_edge, false, true),
        "non-loopback edge should be kept when exclude_loopback=true"
    );
}

#[test]
fn test_should_include_local_only_and_exclude_loopback_combined() {
    let public_edge = edge("192.168.1.100", "1.1.1.1", "TCP", 54321, 443, Some("ESTABLISHED"));
    assert!(
        !should_include(&public_edge, true, true),
        "public IP 1.1.1.1 should be filtered with both filters enabled"
    );
}

#[test]
fn test_should_include_local_only_and_exclude_loopback_keeps_private() {
    let private_edge = edge("10.0.0.1", "10.0.0.2", "TCP", 8080, 9090, Some("ESTABLISHED"));
    assert!(
        should_include(&private_edge, true, true),
        "private IP 10.x.x.x should be kept with both filters enabled"
    );
}

#[test]
fn test_parse_netstat_output_filters_applied() {
    let fixture = "Active Internet connections\n\
Proto Recv-Q Send-Q  Local Address          Foreign Address        (state)\n\
tcp4       0      0  192.168.1.100.55231    192.168.1.1.443        ESTABLISHED\n\
tcp4       0      0  192.168.1.100.55232    8.8.8.8.443            ESTABLISHED\n";
    let all_edges = parse_netstat_output(fixture, "TCP");
    assert_eq!(all_edges.len(), 2, "should parse 2 edges before filtering");
    let filtered: Vec<_> = all_edges
        .into_iter()
        .filter(|e| should_include(e, true, false))
        .collect();
    assert_eq!(filtered.len(), 1, "only 1 edge should remain after local_only filter");
    assert_eq!(filtered[0].dst, "192.168.1.1", "kept edge should point to private IP");
}

#[test]
fn test_parse_netstat_output_loopback_filter_applied() {
    let fixture = "Active Internet connections\n\
Proto Recv-Q Send-Q  Local Address          Foreign Address        (state)\n\
tcp4       0      0  127.0.0.1.3306         127.0.0.1.55100        ESTABLISHED\n\
tcp4       0      0  192.168.1.100.55231    192.168.1.1.443        ESTABLISHED\n";
    let all_edges = parse_netstat_output(fixture, "TCP");
    let filtered: Vec<_> = all_edges
        .into_iter()
        .filter(|e| should_include(e, false, true))
        .collect();
    assert_eq!(filtered.len(), 1, "loopback edge should be filtered out when exclude_loopback=true");
    assert_eq!(filtered[0].dst, "192.168.1.1");
}

#[test]
fn test_split_addr_port_ipv4() {
    let (ip, port) = split_addr_port("192.168.1.100.443").unwrap();
    assert_eq!(ip, "192.168.1.100");
    assert_eq!(port, 443);
}

#[test]
fn test_parse_netstat_line_established() {
    let line = "tcp4       0      0  192.168.1.100.54321     192.168.1.1.443    ESTABLISHED";
    let edge = parse_netstat_line(line, "TCP").unwrap();
    assert_eq!(edge.src, "192.168.1.100");
    assert_eq!(edge.dst, "192.168.1.1");
    assert_eq!(edge.dst_port, 443);
    assert_eq!(edge.state.as_deref(), Some("ESTABLISHED"));
}

#[test]
fn test_parse_netstat_line_wildcard_skipped() {
    let line = "udp4       0      0  *.*                    *.*";
    let edge = parse_netstat_line(line, "UDP");
    assert!(edge.is_none());
}

#[test]
fn test_parse_hex_addr_ipv4() {
    let (ip, port) = parse_hex_addr("0101A8C0:0050").unwrap();
    assert_eq!(ip, "192.168.1.1");
    assert_eq!(port, 80);
}

#[test]
fn proc_net_rows_go_from_local_to_remote() {
    let edges = parse_proc_net(PROC_NET_TCP_FIXTURE, "TCP");
    assert_eq!(edges.len(), 2);
    assert!(edges.iter().all(|e| e.count == 1 && e.protocol == "TCP"));
    assert_eq!(edges[0].src, "127.0.0.1");
    assert_eq!(edges[0].src_port, 0x1538);
    assert_eq!(edges[0].dst, "0.0.0.0");
    assert_eq!(edges[0].dst_port, 0);
    assert_eq!(edges[0].state.as_deref(), Some("LISTEN"));
    assert_eq!(edges[1].src, "192.168.1.100");
    assert_eq!(edges[1].src_port, 0xD8F1);
    assert_eq!(edges[1].dst, "192.168.1.1");
    assert_eq!(edges[1].dst_port, 443);
    assert_eq!(edges[1].state.as_deref(), Some("ESTABLISHED"));
    assert!(parse_proc_net("", "TCP").is_empty());
}

// The row's local address 192.168.1.1:80 is the connection's source, as in
// every other /proc/net test: port 80 is the source port, 0x8000 the
// destination port.
#[test]
fn test_proc_net_parsing() {
    let content = "  sl  local_address rem_address   st tx_queue rx_queue tr tm->when retrnsmt   uid  timeout inode
   0: 0101A8C0:0050 020AA8C0:8000 01 00000000:00000000 00:00000000 00000000     0        0 12345 1 0000000000000000 20 4 0 10 -1\n";
    let edges = parse_proc_net(content, "TCP");
    assert_eq!(edges.len(), 1);
    assert_eq!(edges[0].src, "192.168.1.1");
    assert_eq!(edges[0].src_port, 80);
    assert_eq!(edges[0].dst, "192.168.10.2");
    assert_eq!(edges[0].dst_port, 0x8000);
}
