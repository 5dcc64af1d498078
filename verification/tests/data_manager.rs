use netopo::data_manager::{Edge, Graph, GraphSummary, Node};

fn make_node() -> Node {
    Node {
        ip: "192.168.1.1".to_string(),
        hostname: Some("router.local".to_string()),
        ports: vec![80, 443],
        is_local: false,
        mac: Some("aa:bb:cc:dd:ee:ff".to_string()),
        interface: None,
    }
}

fn make_edge() -> Edge {
    Edge {
        src: "192.168.1.100".to_string(),
        dst: "192.168.1.1".to_string(),
        protocol: "TCP".to_string(),
        src_port: 54321,
        dst_port: 443,
        state: Some("ESTABLISHED".to_string()),
        count: 1,
    }
}

fn make_graph() -> Graph {
    Graph {
        nodes: vec![make_node()],
        edges: vec![make_edge()],
        captured_at: "2024-01-15T10:30:00+08:00".to_string(),
        local_ip: "192.168.1.100".to_string(),
        summary: GraphSummary {
            total_nodes: 1,
            total_edges: 1,
            tcp_connections: 1,
            udp_connections: 0,
            scan_duration_ms: 500,
        },
    }
}

#[test]
fn test_graph_captured_at_rfc3339() {
    let graph = make_graph();
    assert!(
        chrono::DateTime::parse_from_rfc3339(&graph.captured_at).is_ok(),
        "captured_at must be valid RFC3339: {}",
        graph.captured_at
    );
}
