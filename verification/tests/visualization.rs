use netopo::data_manager::{Edge, Graph, GraphSummary, Node};
use netopo::visualization::{render_ascii_string, render_dot_string};

fn make_test_graph() -> Graph {
    Graph {
        nodes: vec![
            Node {
                ip: "192.168.1.100".to_string(),
                hostname: Some("mymac.local".to_string()),
                ports: vec![22, 80],
                is_local: true,
                mac: Some("aa:bb:cc:dd:ee:ff".to_string()),
                interface: Some("en0".to_string()),
            },
            Node {
                ip: "192.168.1.1".to_string(),
                hostname: Some("router.local".to_string()),
                ports: vec![80, 443],
                is_local: false,
                mac: None,
                interface: None,
            },
        ],
        edges: vec![Edge {
            src: "192.168.1.100".to_string(),
            dst: "192.168.1.1".to_string(),
            protocol: "TCP".to_string(),
            src_port: 55000,
            dst_port: 443,
            state: Some("ESTABLISHED".to_string()),
            count: 3,
        }],
        captured_at: "2024-01-15T10:30:00+08:00".to_string(),
        local_ip: "192.168.1.100".to_string(),
        summary: GraphSummary {
            total_nodes: 2,
            total_edges: 1,
            tcp_connections: 1,
            udp_connections: 0,
            scan_duration_ms: 1234,
        },
    }
}

fn make_test_graph_with_udp() -> Graph {
    let mut g = make_test_graph();
    g.edges.push(Edge {
        src: "192.168.1.100".to_string(),
        dst: "8.8.8.8".to_string(),
        protocol: "UDP".to_string(),
        src_port: 63412,
        dst_port: 53,
        state: None,
        count: 1,
    });
    g.nodes.push(Node {
        ip: "8.8.8.8".to_string(),
        hostname: Some("dns.google".to_string()),
        ports: vec![53],
        is_local: false,
        mac: None,
        interface: None,
    });
    g.summary.total_nodes = 3;
    g.summary.total_edges = 2;
    g.summary.udp_connections = 1;
    g
}

#[test]
fn test_dot_contains_digraph_netopo() {
    let graph = make_test_graph();
    let dot = render_dot_string(&graph);
    assert!(dot.contains("digraph netopo"));
}

#[test]
fn test_dot_contains_rankdir_lr() {
    let graph = make_test_graph();
    let dot = render_dot_string(&graph);
    assert!(dot.contains("rankdir=LR"));
}

#[test]
fn test_dot_local_node_has_doublecircle() {
    let graph = make_test_graph();
    let dot = render_dot_string(&graph);
    assert!(dot.contains("doublecircle"), "Local node should have doublecircle shape");
}

#[test]
fn test_dot_local_node_has_color_blue() {
    let graph = make_test_graph();
    let dot = render_dot_string(&graph);
    assert!(dot.contains("color=blue"), "Local node should have color=blue");
}

#[test]
fn test_dot_edge_has_penwidth() {
    let graph = make_test_graph();
    let dot = render_dot_string(&graph);
    assert!(dot.contains("penwidth="), "Edges should have penwidth");
}

#[test]
fn test_dot_udp_edge_has_dashed_style() {
    let graph = make_test_graph_with_udp();
    let dot = render_dot_string(&graph);
    assert!(dot.contains("style=dashed"), "UDP edges should have style=dashed");
}

#[test]
fn test_dot_tcp_edge_no_dashed_style() {
    let graph = make_test_graph();
    let dot = render_dot_string(&graph);
    assert!(!dot.contains("style=dashed"), "TCP-only graph should not have dashed style");
}

#[test]
fn test_ascii_contains_star_marker() {
    let graph = make_test_graph();
    let output = render_ascii_string(&graph);
    assert!(output.contains('★'), "ASCII output must contain ★ for local node");
}

#[test]
fn test_ascii_contains_local_ip() {
    let graph = make_test_graph();
    let output = render_ascii_string(&graph);
    assert!(output.contains("192.168.1.100"));
}

#[test]
fn test_ascii_contains_tcp_protocol() {
    let graph = make_test_graph();
    let output = render_ascii_string(&graph);
    assert!(output.contains("TCP"));
}

#[test]
fn test_ascii_contains_udp_protocol() {
    let graph = make_test_graph_with_udp();
    let output = render_ascii_string(&graph);
    assert!(output.contains("UDP"));
}

#[test]
fn test_ascii_header_present() {
    let graph = make_test_graph();
    let output = render_ascii_string(&graph);
    assert!(output.contains("netopo 拓扑图"));
}

#[test]
fn test_ascii_summary_line_present() {
    let graph = make_test_graph();
    let output = render_ascii_string(&graph);
    assert!(output.contains("活跃连接") && output.contains("TCP"));
}

#[test]
fn test_ascii_lan_section_header() {
    let graph = make_test_graph();
    let output = render_ascii_string(&graph);
    assert!(output.contains("局域网设备"), "should have LAN section header");
}

#[test]
fn test_ascii_public_section_header() {
    let graph = make_test_graph_with_udp();
    let output = render_ascii_string(&graph);
    assert!(output.contains("公网连接"), "should have public section when public IPs present");
}

#[test]
fn test_ascii_no_public_section_when_lan_only() {
    let graph = make_test_graph();
    let output = render_ascii_string(&graph);
    assert!(!output.contains("公网连接"), "no public section when all IPs are LAN");
}

#[test]
fn test_ascii_isp_google_classified() {
    let graph = make_test_graph_with_udp();
    let output = render_ascii_string(&graph);
    assert!(output.contains("Google"), "8.8.8.8 should be classified as Google");
}

#[test]
fn test_ascii_summary_has_top_ports() {
    let graph = make_test_graph();
    let output = render_ascii_string(&graph);
    assert!(output.contains("Top端口"), "summary should include top ports when connections exist");
}
