use netopo::data_manager::{Edge, Node};
use netopo::graph_builder::{build_graph, dedup_edges, filter_by_min_connections};

fn make_node(ip: &str, is_local: bool) -> Node {
    Node {
        ip: ip.to_string(),
        hostname: None,
        ports: vec![],
        is_local,
        mac: None,
        interface: None,
    }
}

fn make_edge(src: &str, dst: &str, proto: &str, dst_port: u16, count: u32) -> Edge {
    Edge {
        src: src.to_string(),
        dst: dst.to_string(),
        protocol: proto.to_string(),
        src_port: 50000,
        dst_port,
        state: None,
        count,
    }
}

#[test]
fn test_dedup_merges_same_connection() {
    let edges = vec![
        make_edge("10.0.0.1", "10.0.0.2", "TCP", 80, 1),
        make_edge("10.0.0.1", "10.0.0.2", "TCP", 80, 1),
    ];
    let result = dedup_edges(edges);
    assert_eq!(result.len(), 1);
    assert_eq!(result[0].count, 2);
}

#[test]
fn test_dedup_keeps_different_ports() {
    let edges = vec![
        make_edge("10.0.0.1", "10.0.0.2", "TCP", 80, 1),
        make_edge("10.0.0.1", "10.0.0.2", "TCP", 443, 1),
    ];
    let result = dedup_edges(edges);
    assert_eq!(result.len(), 2);
}

#[test]
fn test_dedup_keeps_different_protocols() {
    let edges = vec![
        make_edge("10.0.0.1", "10.0.0.2", "TCP", 80, 1),
        make_edge("10.0.0.1", "10.0.0.2", "UDP", 80, 1),
    ];
    let result = dedup_edges(edges);
    assert_eq!(result.len(), 2);
}

#[test]
fn test_dedup_accumulates_count() {
    let edges = vec![
        make_edge("10.0.0.1", "10.0.0.2", "TCP", 443, 1),
        make_edge("10.0.0.1", "10.0.0.2", "TCP", 443, 1),
        make_edge("10.0.0.1", "10.0.0.2", "TCP", 443, 1),
    ];
    let result = dedup_edges(edges);
    assert_eq!(result.len(), 1);
    assert_eq!(result[0].count, 3);
}

#[test]
fn test_dedup_empty_input() {
    let result = dedup_edges(vec![]);
    assert!(result.is_empty());
}

#[test]
fn test_build_graph_marks_local() {
    let nodes = vec![make_node("10.0.0.1", false)];
    let graph = build_graph(nodes, vec![], "10.0.0.1");
    assert!(graph.nodes[0].is_local);
}

#[test]
fn test_build_graph_local_ip_field() {
    let graph = build_graph(vec![], vec![], "192.168.1.100");
    assert_eq!(graph.local_ip, "192.168.1.100");
}

#[test]
fn test_build_graph_creates_missing_nodes_from_edges() {
    let edges = vec![make_edge("10.0.0.1", "10.0.0.2", "TCP", 80, 1)];
    let graph = build_graph(vec![], edges, "10.0.0.1");
    let ips: Vec<&str> = graph.nodes.iter().map(|n| n.ip.as_str()).collect();
    assert!(ips.contains(&"10.0.0.1"));
    assert!(ips.contains(&"10.0.0.2"));
}

#[test]
fn test_build_graph_summary_counts() {
    let nodes = vec![make_node("192.168.1.100", true), make_node("192.168.1.1", false)];
    let edges = vec![
        make_edge("192.168.1.100", "192.168.1.1", "TCP", 443, 1),
        make_edge("192.168.1.100", "8.8.8.8", "UDP", 53, 1),
    ];
    let graph = build_graph(nodes, edges, "192.168.1.100");
    assert_eq!(graph.summary.total_nodes, 3);
    assert_eq!(graph.summary.total_edges, 2);
    assert_eq!(graph.summary.tcp_connections, 1);
    assert_eq!(graph.summary.udp_connections, 1);
}

#[test]
fn test_build_graph_edge_dedup_in_pipeline() {
    let edges = vec![
        make_edge("192.168.1.100", "192.168.1.1", "TCP", 443, 1),
        make_edge("192.168.1.100", "192.168.1.1", "TCP", 443, 1),
    ];
    let graph = build_graph(vec![], edges, "192.168.1.100");
    assert_eq!(graph.edges.len(), 1);
    assert_eq!(graph.edges[0].count, 2);
}

#[test]
fn test_filter_min_connections_removes_low_count_nodes() {
    let edges = vec![
        make_edge("10.0.0.1", "10.0.0.2", "TCP", 80, 1),
        make_edge("10.0.0.1", "10.0.0.3", "TCP", 443, 3),
    ];
    let mut graph = build_graph(
        vec![
            make_node("10.0.0.1", false),
            make_node("10.0.0.2", false),
            make_node("10.0.0.3", false),
        ],
        edges,
        "10.0.0.99",
    );
    filter_by_min_connections(&mut graph, 2);
    let ips: Vec<&str> = graph.nodes.iter().map(|n| n.ip.as_str()).collect();
    assert!(!ips.contains(&"10.0.0.2"), "10.0.0.2 should be filtered");
    assert!(ips.contains(&"10.0.0.1"));
    assert!(ips.contains(&"10.0.0.3"));
}

#[test]
fn test_filter_min_connections_keeps_local_node() {
    let edges = vec![make_edge("192.168.1.100", "192.168.1.1", "TCP", 80, 1)];
    let mut graph = build_graph(
        vec![make_node("192.168.1.100", true), make_node("192.168.1.1", false)],
        edges,
        "192.168.1.100",
    );
    filter_by_min_connections(&mut graph, 5);
    let ips: Vec<&str> = graph.nodes.iter().map(|n| n.ip.as_str()).collect();
    assert!(ips.contains(&"192.168.1.100"));
}

#[test]
fn test_filter_min_connections_updates_summary() {
    let edges = vec![
        make_edge("10.0.0.1", "10.0.0.2", "TCP", 80, 5),
        make_edge("10.0.0.1", "10.0.0.3", "UDP", 53, 1),
    ];
    let mut graph = build_graph(vec![], edges, "10.0.0.99");
    let initial_nodes = graph.nodes.len();
    let initial_edges = graph.edges.len();
    filter_by_min_connections(&mut graph, 2);
    assert!(graph.summary.total_nodes <= initial_nodes);
    assert!(graph.summary.total_edges <= initial_edges);
    assert_eq!(graph.summary.total_nodes, graph.nodes.len());
    assert_eq!(graph.summary.total_edges, graph.edges.len());
}

#[test]
fn test_inbound_edges_query() {
    let edges = vec![
        make_edge("10.0.0.1", "10.0.0.2", "TCP", 80, 1),
        make_edge("10.0.0.3", "10.0.0.2", "TCP", 443, 1),
        make_edge("10.0.0.1", "10.0.0.3", "TCP", 22, 1),
    ];
    let graph = build_graph(vec![], edges, "10.0.0.99");
    let inbound_2: Vec<_> = graph.edges.iter().filter(|e| e.dst == "10.0.0.2").collect();
    assert_eq!(inbound_2.len(), 2);
}

#[test]
fn test_outbound_edges_query() {
    let edges = vec![
        make_edge("10.0.0.1", "10.0.0.2", "TCP", 80, 1),
        make_edge("10.0.0.1", "10.0.0.3", "TCP", 443, 1),
        make_edge("10.0.0.2", "10.0.0.3", "TCP", 22, 1),
    ];
    let graph = build_graph(vec![], edges, "10.0.0.99");
    let outbound_1: Vec<_> = graph.edges.iter().filter(|e| e.src == "10.0.0.1").collect();
    assert_eq!(outbound_1.len(), 2);
}
