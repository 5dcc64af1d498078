use netopo::data_manager::{Edge, Graph, GraphSummary, Node};
use netopo::tui::AppState;

fn make_test_graph() -> Graph {
    Graph {
        nodes: vec![
            Node {
                ip: "192.168.1.100".to_string(),
                hostname: Some("mymac.local".to_string()),
                ports: vec![22, 80],
                is_local: true,
                mac: Some("aa:bb:cc:dd:ee:ff".to_string()),
                interface: Some("en0".to_string()),
            },
            Node {
                ip: "192.168.1.1".to_string(),
                hostname: Some("router.local".to_string()),
                ports: vec![80, 443],
                is_local: false,
                mac: None,
                interface: None,
            },
        ],
        edges: vec![Edge {
            src: "192.168.1.100".to_string(),
            dst: "192.168.1.1".to_string(),
            protocol: "TCP".to_string(),
            src_port: 55000,
            dst_port: 443,
            state: Some("ESTABLISHED".to_string()),
            count: 3,
        }],
        captured_at: "2024-01-15T10:30:00+08:00".to_string(),
        local_ip: "192.168.1.100".to_string(),
        summary: GraphSummary {
            total_nodes: 2,
            total_edges: 1,
            tcp_connections: 1,
            udp_connections: 0,
            scan_duration_ms: 1234,
        },
    }
}

#[test]
fn test_tui_key_q_sets_quit_flag() {
    let graph = make_test_graph();
    let mut app = AppState::new(graph, "127.0.0.1".to_string());
    assert_eq!(app.selected, 0);
    let node_count = app.filtered_nodes().len();
    if node_count > 1 {
        app.selected = (app.selected + 1).min(node_count - 1);
        assert_eq!(app.selected, 1);
    }
    if app.selected > 0 {
        app.selected -= 1;
    }
    assert_eq!(app.selected, 0);
    assert!(!app.filter_mode);
}

#[test]
fn test_tui_filtered_nodes_with_keyword() {
    let graph = make_test_graph();
    let mut app = AppState::new(graph, "127.0.0.1".to_string());
    assert_eq!(app.filtered_nodes().len(), 2);
    app.filter = "router".to_string();
    let filtered = app.filtered_nodes();
    assert_eq!(filtered.len(), 1);
    assert_eq!(filtered[0].ip, "192.168.1.1");
}

#[test]
fn test_tui_filtered_nodes_by_ip() {
    let graph = make_test_graph();
    let mut app = AppState::new(graph, "127.0.0.1".to_string());
    app.filter = "192.168.1.100".to_string();
    let filtered = app.filtered_nodes();
    assert_eq!(filtered.len(), 1);
    assert_eq!(filtered[0].ip, "192.168.1.100");
}

#[test]
fn test_tui_selected_node_returns_correct() {
    let graph = make_test_graph();
    let mut app = AppState::new(graph, "127.0.0.1".to_string());
    let node = app.selected_node().expect("should have a selected node");
    assert_eq!(node.ip, "192.168.1.100");
    app.selected = 1;
    let node2 = app.selected_node().expect("should have node at index 1");
    assert_eq!(node2.ip, "192.168.1.1");
}
