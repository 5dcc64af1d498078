use netopo::ascii::{fmt_conns_ex, port_counts_fit, public_ips, Colors};
use netopo::cli::{Cli, PortSpecError};
use netopo::connection_tracker::{decode_tcp_state, is_private};
use netopo::data_manager::{Edge, Graph, GraphSummary, Node};
use netopo::graph_builder::{build_graph, build_graph_at, dedup_edges, edge_counts_fit, filter_by_min_connections};
use netopo::index::index_graph;
use netopo::labels::{is_lan_ip, isp_label, isp_of, node_display, resolve_port_name};
use netopo::layout::{center_in_box, get_byte_prefix, parse_time_str, trunc, visual_width};
use netopo::scanner::{parse_ports, probe_result_node, PortListError};
use netopo::tui::{
    build_mini_ascii, classify_node, node_item_style, node_item_text, title_bar_text, Action, AppState, FocusedPanel,
    ItemStyle, Key,
};
use netopo::visualization::{render_ascii_string, render_ascii_string_with_opts, render_dot_string, AsciiOptions};

fn node(ip: &str, host: Option<&str>, ports: Vec<u16>, is_local: bool) -> Node {
    Node {
        ip: ip.to_string(),
        hostname: host.map(|h| h.to_string()),
        ports,
        is_local,
        mac: None,
        interface: None,
    }
}

fn edge(src: &str, dst: &str, proto: &str, src_port: u16, dst_port: u16, count: u32) -> Edge {
    Edge {
        src: src.to_string(),
        dst: dst.to_string(),
        protocol: proto.to_string(),
        src_port,
        dst_port,
        state: None,
        count,
    }
}

fn graph(nodes: Vec<Node>, edges: Vec<Edge>, local: &str) -> Graph {
    let tcp = edges.iter().filter(|e| e.protocol == "TCP").count();
    let udp = edges.iter().filter(|e| e.protocol == "UDP").count();
    Graph {
        summary: GraphSummary {
            total_nodes: nodes.len(),
            total_edges: edges.len(),
            tcp_connections: tcp,
            udp_connections: udp,
            scan_duration_ms: 0,
        },
        nodes,
        edges,
        captured_at: "2024-01-15T10:30:00+08:00".to_string(),
        local_ip: local.to_string(),
    }
}

fn cli_with_ports(ports: Option<&str>) -> Cli {
    Cli {
        scan: false,
        subnet: None,
        ports: ports.map(|p| p.to_string()),
        concurrency: 256,
        timeout: 500,
        connections: false,
        local_only: false,
        exclude_loopback: false,
        watch: None,
        graph: false,
        min_connections: None,
        output_json: None,
        output_dot: None,
        ascii: false,
        tui: false,
        verbose: false,
        quiet: false,
    }
}

// ── merging connections ─────────────────────────────────────────────────────

#[test]
fn dedup_sorts_by_key_and_keeps_first_fields() {
    let mut first = edge("10.0.0.2", "10.0.0.1", "TCP", 1111, 80, 2);
    first.state = Some("ESTABLISHED".to_string());
    let edges = vec![
        first,
        edge("10.0.0.1", "10.0.0.9", "UDP", 2222, 53, 1),
        edge("10.0.0.2", "10.0.0.1", "TCP", 3333, 80, 5),
        edge("10.0.0.1", "10.0.0.9", "TCP", 4444, 53, 1),
    ];
    let r = dedup_edges(edges);
    let keys: Vec<(String, String, String, u16)> = r
        .iter()
        .map(|e| (e.src.clone(), e.dst.clone(), e.protocol.clone(), e.dst_port))
        .collect();
    assert_eq!(
        keys,
        vec![
            ("10.0.0.1".to_string(), "10.0.0.9".to_string(), "TCP".to_string(), 53),
            ("10.0.0.1".to_string(), "10.0.0.9".to_string(), "UDP".to_string(), 53),
            ("10.0.0.2".to_string(), "10.0.0.1".to_string(), "TCP".to_string(), 80),
        ]
    );
    assert_eq!(r[2].count, 7);
    assert_eq!(r[2].src_port, 1111);
    assert_eq!(r[2].state.as_deref(), Some("ESTABLISHED"));
}

#[test]
fn dedup_keeps_total_count() {
    let edges = vec![
        edge("a", "b", "TCP", 1, 80, 4),
        edge("a", "b", "TCP", 2, 80, 6),
        edge("a", "c", "TCP", 3, 80, 1),
    ];
    let total_before: u32 = edges.iter().map(|e| e.count).sum();
    let r = dedup_edges(edges);
    let total_after: u32 = r.iter().map(|e| e.count).sum();
    assert_eq!(total_before, total_after);
}

#[test]
fn dedup_twice_is_dedup_once() {
    let edges = vec![
        edge("10.0.0.2", "10.0.0.1", "TCP", 1111, 80, 2),
        edge("10.0.0.1", "10.0.0.9", "UDP", 2222, 53, 1),
        edge("10.0.0.2", "10.0.0.1", "TCP", 3333, 80, 5),
    ];
    let once = dedup_edges(edges);
    let twice = dedup_edges(once.clone());
    let fields = |v: &Vec<Edge>| {
        v.iter()
            .map(|e| (e.src.clone(), e.dst.clone(), e.protocol.clone(), e.src_port, e.dst_port, e.count))
            .collect::<Vec<_>>()
    };
    assert_eq!(fields(&once), fields(&twice));
    assert_eq!(once.len(), 2);
}

#[test]
fn edge_counts_fit_detects_overflow() {
    let ok = vec![edge("a", "b", "TCP", 1, 80, 1), edge("a", "b", "TCP", 2, 80, 2)];
    assert!(edge_counts_fit(&ok));
    let too_big = vec![edge("a", "b", "TCP", 1, 80, u32::MAX), edge("a", "b", "TCP", 2, 80, 1)];
    assert!(!edge_counts_fit(&too_big));
    let separate = vec![edge("a", "b", "TCP", 1, 80, u32::MAX), edge("a", "b", "TCP", 2, 81, 1)];
    assert!(edge_counts_fit(&separate));
}

// ── building the graph ──────────────────────────────────────────────────────

#[test]
fn build_graph_at_placeholders_in_first_appearance_order() {
    let nodes = vec![node("10.0.0.5", None, vec![], false)];
    let edges = vec![
        edge("10.0.0.9", "10.0.0.5", "TCP", 1, 80, 1),
        edge("10.0.0.1", "10.0.0.7", "UDP", 1, 53, 1),
    ];
    let g = build_graph_at(nodes, edges, "10.0.0.7", "2024-01-01T00:00:00+00:00".to_string());
    let ips: Vec<&str> = g.nodes.iter().map(|n| n.ip.as_str()).collect();
    // merged edges are sorted: 10.0.0.1->10.0.0.7, then 10.0.0.9->10.0.0.5
    assert_eq!(ips, vec!["10.0.0.5", "10.0.0.1", "10.0.0.7", "10.0.0.9"]);
    assert!(g.nodes[2].is_local, "the placeholder at the local address is local");
    assert!(!g.nodes[1].is_local);
    assert_eq!(g.captured_at, "2024-01-01T00:00:00+00:00");
    assert_eq!(g.summary.scan_duration_ms, 0);
    assert_eq!(g.summary.tcp_connections, 1);
    assert_eq!(g.summary.udp_connections, 1);
}

#[test]
fn build_graph_every_endpoint_has_a_node() {
    let edges = vec![
        edge("1.1.1.1", "2.2.2.2", "TCP", 1, 443, 1),
        edge("2.2.2.2", "3.3.3.3", "UDP", 1, 53, 1),
    ];
    let g = build_graph(vec![], edges, "9.9.9.9");
    for e in &g.edges {
        assert!(g.nodes.iter().any(|n| n.ip == e.src));
        assert!(g.nodes.iter().any(|n| n.ip == e.dst));
    }
    assert_eq!(g.summary.total_nodes, g.nodes.len());
    assert!(chrono::DateTime::parse_from_rfc3339(&g.captured_at).is_ok());
}

#[test]
fn index_graph_has_nodes_and_labelled_edges() {
    let nodes = vec![node("a", None, vec![], false), node("b", None, vec![], false)];
    let edges = vec![edge("a", "b", "TCP", 1, 80, 3), edge("a", "zz", "UDP", 1, 53, 1)];
    let g = index_graph(&nodes, &edges);
    assert_eq!(g.node_count(), 2);
    assert_eq!(g.edge_count(), 1);
    let w = g.edge_weight(petgraph::graph::EdgeIndex::new(0)).unwrap();
    assert_eq!(w, "TCP x3");
}

// ── filtering ───────────────────────────────────────────────────────────────

#[test]
fn filter_twice_is_filter_once() {
    let edges = vec![
        edge("a", "b", "TCP", 1, 80, 1),
        edge("a", "c", "TCP", 1, 443, 3),
        edge("b", "c", "TCP", 1, 22, 1),
    ];
    let mut once = build_graph(vec![node("a", None, vec![], true)], edges, "a");
    filter_by_min_connections(&mut once, 2);
    let mut twice = once.clone();
    filter_by_min_connections(&mut twice, 2);
    let ips1: Vec<String> = once.nodes.iter().map(|n| n.ip.clone()).collect();
    let ips2: Vec<String> = twice.nodes.iter().map(|n| n.ip.clone()).collect();
    assert_eq!(ips1, ips2);
    assert_eq!(once.edges.len(), twice.edges.len());
    // b is an endpoint of light connections only, so its connections go too
    assert!(once.edges.iter().all(|e| e.src == "a" && e.dst == "c"));
}

#[test]
fn filter_keeps_local_node_without_edges() {
    let mut g = graph(
        vec![node("10.0.0.1", None, vec![], true), node("10.0.0.2", None, vec![], false)],
        vec![],
        "10.0.0.1",
    );
    filter_by_min_connections(&mut g, 0);
    assert_eq!(g.nodes.len(), 1);
    assert_eq!(g.nodes[0].ip, "10.0.0.1");
    assert_eq!(g.summary.total_nodes, 1);
}

// ── dot ─────────────────────────────────────────────────────────────────────

#[test]
fn dot_exact_text() {
    let g = graph(
        vec![
            node("10.0.0.1", Some("me"), vec![22, 80], true),
            node("10.0.0.2", None, vec![], false),
        ],
        vec![edge("10.0.0.1", "10.0.0.2", "UDP", 1, 53, 3)],
        "10.0.0.1",
    );
    let dot = render_dot_string(&g);
    let expected = "digraph netopo {\n  rankdir=LR;\n  node [fontname=\"Helvetica\" fontsize=10];\n  \"10.0.0.1\" [label=\"10.0.0.1\\nme\\n2 ports\" shape=doublecircle color=blue];\n  \"10.0.0.2\" [label=\"10.0.0.2\"];\n  \"10.0.0.1\" -> \"10.0.0.2\" [penwidth=2.5 label=\"UDP x3\" style=dashed];\n}\n";
    assert_eq!(dot, expected);
}

#[test]
fn dot_pen_width_bounds() {
    for (count, pw) in [(0u32, "1.0"), (1, "1.5"), (2, "2.0"), (3, "2.5"), (7, "4.5"), (8, "5.0"), (10, "5.0"), (1000, "5.0")] {
        let g = graph(vec![], vec![edge("a", "b", "TCP", 1, 80, count)], "a");
        let dot = render_dot_string(&g);
        assert!(dot.contains(&format!("penwidth={} ", pw)), "count {} gives {}", count, pw);
    }
}

// ── labels ──────────────────────────────────────────────────────────────────

#[test]
fn lan_addresses() {
    assert!(is_lan_ip("::1"));
    assert!(is_lan_ip("FE80::1"));
    assert!(is_lan_ip("fd00::1"));
    assert!(is_lan_ip("172.20.1.1"));
    assert!(is_lan_ip("127.0.0.1"));
    assert!(!is_lan_ip("172.32.1.1"));
    assert!(!is_lan_ip("172.x.1.1"));
    assert!(!is_lan_ip("8.8.8.8"));
}

#[test]
fn providers_by_rule_and_database_answer() {
    assert_eq!(isp_of(Some("WWW.GOOGLE.COM"), "9.9.9.9"), "Google");
    assert_eq!(isp_of(None, "140.82.112.3"), "GitHub");
    assert_eq!(isp_of(Some("edge.akamaitechnologies.com"), "2.2.2.2"), "Akamai");
    assert_eq!(isp_of(None, "5.5.5.5"), "其他");
    assert_eq!(isp_label(None, "5.5.5.5", Some("Example Org".to_string())), "Example Org");
    assert_eq!(isp_label(None, "5.5.5.5", Some(String::new())), "其他");
    assert_eq!(isp_label(None, "8.8.8.8", Some("Example Org".to_string())), "Google");
}

#[test]
fn port_names_and_display() {
    assert_eq!(resolve_port_name(443), Some("HTTPS"));
    assert_eq!(resolve_port_name(6379), Some("Redis"));
    assert_eq!(resolve_port_name(8080), None);
    let n = node("1.2.3.4", Some("host"), vec![], false);
    assert_eq!(node_display(Some(&n), "1.2.3.4"), "host (1.2.3.4)");
    let same = node("1.2.3.4", Some("1.2.3.4"), vec![], false);
    assert_eq!(node_display(Some(&same), "1.2.3.4"), "1.2.3.4");
    assert_eq!(node_display(None, "1.2.3.4"), "1.2.3.4");
}

#[test]
fn tcp_state_is_upper_cased_first() {
    assert_eq!(decode_tcp_state("0a"), "LISTEN");
    assert_eq!(decode_tcp_state("0b"), "CLOSING");
}

// ── layout ──────────────────────────────────────────────────────────────────

#[test]
fn layout_helpers() {
    assert_eq!(visual_width("netopo 拓扑图"), 13);
    assert_eq!(center_in_box("ab", 2, 7), "  ab   ");
    assert_eq!(center_in_box("abcdef", 6, 3), "abcdef");
    assert_eq!(parse_time_str("2024-01-15T10:30:00+08:00"), "2024-01-15 10:30");
    assert_eq!(parse_time_str("short"), "short");
    assert_eq!(get_byte_prefix("2024-01-15T10:30:00+08:00", 19).as_deref(), Some("2024-01-15T10:30:00"));
    assert_eq!(get_byte_prefix("abc", 19), None);
}

#[test]
fn truncation() {
    assert_eq!(trunc("abc", 5), "abc");
    assert_eq!(trunc("abcdef", 3), "ab…");
    assert_eq!(trunc("abc", 3), "abc");
    assert_eq!(trunc("拓扑图", 4), "拓…");
    assert_eq!(trunc("拓扑图", 6), "拓扑图");
    assert_eq!(trunc("\x1b[32mabc\x1b[0m", 3), "\x1b[32mabc\x1b[0m");
    assert_eq!(trunc("\x1b[32mabcd\x1b[0m", 3), "\x1b[32mab…");
    assert_eq!(trunc("abc", 0), "");
}

// ── ASCII overview ──────────────────────────────────────────────────────────

#[test]
fn connection_list_sorted_and_distinct() {
    let edges = vec![
        edge("a", "b", "TCP", 1, 443, 2),
        edge("a", "b", "TCP", 2, 22, 1),
        edge("a", "b", "TCP", 3, 22, 1),
        edge("c", "b", "UDP", 3, 53, 1),
        edge("a", "x", "TCP", 3, 80, 1),
    ];
    let colors = Colors::new(false);
    assert_eq!(fmt_conns_ex(&edges, Some("a"), "b", false, &colors), "TCP:22  TCP:443 x2");
    assert_eq!(fmt_conns_ex(&edges, None, "b", true, &colors), "TCP:HTTPS x2  TCP:SSH  UDP:53");
    let colored = Colors::new(true);
    assert_eq!(fmt_conns_ex(&edges, Some("c"), "b", false, &colored), "\x1b[33mUDP:53\x1b[0m");
}

#[test]
fn ascii_exact_small_overview() {
    let g = graph(
        vec![node("192.168.1.2", Some("me"), vec![], true)],
        vec![edge("192.168.1.2", "192.168.1.1", "TCP", 1, 443, 2)],
        "192.168.1.2",
    );
    let out = render_ascii_string(&g);
    let mut lines = out.lines();
    assert_eq!(lines.next(), Some(format!("╔{}╗", "═".repeat(42)).as_str()));
    assert_eq!(lines.next(), Some(format!("║{}netopo 拓扑图{}║", " ".repeat(14), " ".repeat(15)).as_str()));
    assert_eq!(lines.next(), Some(format!("║{}2024-01-15 10:30{}║", " ".repeat(13), " ".repeat(13)).as_str()));
    assert!(out.contains("━━━ 局域网设备 (1) ━━━━━━━━━━━━━━━━━━━━\n\n"));
    assert!(out.contains("  [★ me] (192.168.1.2)\n"));
    assert!(out.contains(&format!("  └─► {:<38}  TCP:443 x2\n", "192.168.1.1")));
    assert!(out.ends_with("活跃连接: 1  │  TCP: 1  UDP: 0  │  Top端口: 443(x2)\n"));
}

#[test]
fn ascii_hides_beyond_ten_per_provider() {
    let mut edges = Vec::new();
    for i in 1..=12 {
        edges.push(edge("192.168.1.2", &format!("8.8.8.{}", i), "UDP", 1, 53, 1));
    }
    let g = graph(vec![node("192.168.1.2", None, vec![], true)], edges, "192.168.1.2");
    let out = render_ascii_string(&g);
    assert!(out.contains("公网连接 (12)"));
    assert!(out.contains("还有 2 条"));
    let mut opts = AsciiOptions::default();
    opts.all_connections = true;
    let all = render_ascii_string_with_opts(&g, &opts);
    assert!(!all.contains("还有"));
}

#[test]
fn ascii_filter_and_database_bytes() {
    let edges = vec![
        edge("192.168.1.2", "5.5.5.5", "TCP", 1, 443, 1),
        edge("192.168.1.2", "8.8.4.4", "TCP", 1, 443, 1),
    ];
    let g = graph(vec![node("192.168.1.2", None, vec![], true)], edges, "192.168.1.2");
    let mut opts = AsciiOptions::default();
    opts.filter = Some("GOOGLE".to_string());
    opts.asn_db = Some(vec![1, 2, 3]);
    let out = render_ascii_string_with_opts(&g, &opts);
    assert!(out.contains("公网连接 (1)"));
    assert!(out.contains("Google"));
    assert!(!out.contains("其他"), "bytes that are no database give no organisation");
}

#[test]
fn ascii_top_ports_ranked() {
    let edges = vec![
        edge("a", "b", "TCP", 1, 80, 2),
        edge("a", "c", "TCP", 1, 22, 5),
        edge("a", "d", "TCP", 1, 443, 2),
        edge("a", "e", "TCP", 1, 53, 1),
    ];
    assert!(port_counts_fit(&edges));
    let g = graph(vec![], edges, "a");
    let out = render_ascii_string(&g);
    assert!(out.contains("Top端口: 22(x5) 80(x2) 443(x2)\n"));
    let mut opts = AsciiOptions::default();
    opts.resolve_ports = true;
    let named = render_ascii_string_with_opts(&g, &opts);
    assert!(named.contains("Top端口: SSH(x5) HTTP(x2) HTTPS(x2)\n"));
}

#[test]
fn port_counts_fit_detects_overflow() {
    let edges = vec![edge("a", "b", "TCP", 1, 80, u32::MAX), edge("a", "c", "TCP", 1, 80, 1)];
    assert!(!port_counts_fit(&edges));
}

// ── interactive view ────────────────────────────────────────────────────────

fn app() -> AppState {
    let g = graph(
        vec![
            node("192.168.1.100", Some("mymac.local"), vec![22, 80], true),
            node("192.168.1.1", Some("router.local"), vec![80, 443], false),
            node("192.168.1.7", None, vec![53], false),
        ],
        vec![
            edge("192.168.1.100", "192.168.1.1", "TCP", 1, 443, 3),
            edge("192.168.1.100", "8.8.8.8", "UDP", 1, 53, 1),
            edge("192.168.1.7", "192.168.1.100", "TCP", 1, 22, 1),
        ],
        "192.168.1.100",
    );
    AppState::new(g, "192.168.1.100".to_string())
}

#[test]
fn keys_tab_twice_restores_focus() {
    let mut a = app();
    assert!(matches!(a.handle_key(Key::Tab, false), Action::Continue));
    assert_eq!(a.focused_panel, FocusedPanel::TopoGraph);
    a.handle_key(Key::Tab, false);
    assert_eq!(a.focused_panel, FocusedPanel::NodeList);
}

#[test]
fn keys_arrows_stay_in_list() {
    let mut a = app();
    a.handle_key(Key::Up, false);
    assert_eq!(a.selected, 0);
    for _ in 0..10 {
        a.handle_key(Key::Down, false);
    }
    assert_eq!(a.selected, 2);
}

#[test]
fn keys_filter_mode() {
    let mut a = app();
    a.handle_key(Key::Char('f'), false);
    assert!(a.filter_mode);
    for c in "routx".chars() {
        a.handle_key(Key::Char(c), false);
    }
    a.handle_key(Key::Backspace, false);
    a.handle_key(Key::Char('e'), false);
    assert_eq!(a.filter, "route");
    assert_eq!(a.status_text(), "[过滤] 输入关键词: route▌");
    a.handle_key(Key::Enter, false);
    assert!(!a.filter_mode);
    assert_eq!(a.selected, 0);
    assert_eq!(a.filtered_nodes().len(), 1);
}

#[test]
fn keys_export_and_help_and_quit() {
    let mut a = app();
    a.handle_key(Key::Char('e'), false);
    assert_eq!(a.export_buf, "netopo_export.json");
    match a.handle_key(Key::Enter, false) {
        Action::Export(f) => assert_eq!(f, "netopo_export.json"),
        other => panic!("unexpected {:?}", other),
    }
    a.finish_export("netopo_export.json", Ok(()));
    assert_eq!(a.status_msg, "JSON 已写入: netopo_export.json");
    a.handle_key(Key::Char('e'), false);
    a.handle_key(Key::Esc, false);
    assert!(!a.export_mode);
    assert_eq!(a.export_buf, "");
    a.handle_key(Key::Char('?'), false);
    assert!(a.show_help);
    assert!(matches!(a.handle_key(Key::Char('q'), false), Action::Continue));
    assert!(!a.show_help);
    assert!(matches!(a.handle_key(Key::Char('q'), false), Action::Quit));
    assert!(matches!(a.handle_key(Key::Char('c'), true), Action::Quit));
    assert!(matches!(a.handle_key(Key::Char('r'), false), Action::Rescan));
    a.finish_rescan(Err("boom".to_string()));
    assert_eq!(a.status_msg, "刷新失败: boom");
}

#[test]
fn panel_texts() {
    let a = app();
    let d = a.node_detail().unwrap();
    assert_eq!(d.ip, "192.168.1.100");
    assert_eq!(d.inbound_tcp, 1);
    assert_eq!(d.outbound_tcp, 1);
    assert_eq!(d.outbound_udp, 1);
    assert_eq!(d.inbound_udp, 0);
    assert_eq!(d.ports, "22, 80");
    assert_eq!(d.hostname, "mymac.local");
    assert_eq!(classify_node(&a.graph.nodes[0]), "[本机]");
    assert_eq!(classify_node(&a.graph.nodes[1]), "[Web] ");
    assert_eq!(classify_node(&a.graph.nodes[2]), "[DNS] ");
    assert_eq!(node_item_text(&a.graph.nodes[1]), format!("  {:<20} [Web] ", "192.168.1.1"));
    assert_eq!(
        title_bar_text("0.1.0", "2024-01-15T10:30:00+08:00"),
        " netopo  v0.1.0          [最后更新: 2024-01-15T10:30:00]"
    );
    assert_eq!(
        build_mini_ascii(&a.graph),
        "[★192.168.1.100] ──TCP──►[192.168.1.1] ╌╌UDP──►[8.8.8.8]"
    );
    assert_eq!(a.status_text(), " [q]退出  [r]刷新  [↑↓]选择  [f]过滤  [e]导出JSON  [Tab]切换  [?]帮助");
}

// ── ports, probes ───────────────────────────────────────────────────────────

#[test]
fn port_list_errors_and_defaults() {
    assert_eq!(parse_ports("1-70000"), Err(PortListError::RangeOutOfRange(1, 70000)));
    assert_eq!(parse_ports("70000"), Err(PortListError::PortOutOfRange(70000)));
    assert_eq!(parse_ports("9-3"), Err(PortListError::ReversedRange(9, 3)));
    assert_eq!(parse_ports("x"), Err(PortListError::InvalidPort("x".to_string())));
    assert_eq!(PortListError::ReversedRange(9, 3).message(), "范围起点大于终点: 9-3");
    assert_eq!(cli_with_ports(None).parse_ports().unwrap().len(), 20);
    assert_eq!(cli_with_ports(Some(" 22 , 80-82 ")).parse_ports().unwrap(), vec![22, 80, 81, 82]);
    assert_eq!(
        cli_with_ports(Some("80-x")).parse_ports(),
        Err(PortSpecError::InvalidRange("80-x".to_string()))
    );
    assert_eq!(cli_with_ports(Some("y")).parse_ports(), Err(PortSpecError::InvalidPort("y".to_string())));
}

#[test]
fn probe_results() {
    assert!(probe_result_node("10.0.0.3", vec![], None).is_none());
    let n = probe_result_node("10.0.0.3", vec![22], Some("h".to_string())).unwrap();
    assert_eq!(n.ip, "10.0.0.3");
    assert_eq!(n.ports, vec![22]);
    assert!(!n.is_local);
}

#[test]
fn internet_section_lists_distinct_public_destinations_in_order() {
    let edges = vec![
        edge("192.168.1.100", "8.8.8.8", "UDP", 1, 53, 1),
        edge("192.168.1.100", "192.168.1.1", "TCP", 2, 443, 1),
        edge("192.168.1.100", "1.1.1.1", "TCP", 3, 443, 1),
        edge("192.168.1.100", "8.8.8.8", "TCP", 4, 443, 1),
        edge("192.168.1.100", "127.0.0.1", "TCP", 5, 80, 1),
        edge("192.168.1.100", "10.0.0.7", "TCP", 6, 22, 1),
    ];
    assert_eq!(public_ips(&edges), vec!["1.1.1.1".to_string(), "8.8.8.8".to_string()]);
}

#[test]
fn build_graph_time_stamp_is_ascii_rfc3339() {
    let g = build_graph(vec![], vec![], "192.168.1.100");
    assert!(g.captured_at.len() >= 19);
    assert!(g.captured_at.is_ascii());
    assert_eq!(&g.captured_at[4..5], "-");
    assert_eq!(&g.captured_at[10..11], "T");
    assert!(chrono::DateTime::parse_from_rfc3339(&g.captured_at).is_ok());
}

#[test]
fn node_list_styles() {
    assert_eq!(node_item_style(&node("192.168.1.100", None, vec![], true)), ItemStyle::Local);
    assert_eq!(node_item_style(&node("192.168.1.100", None, vec![22], true)), ItemStyle::Local);
    assert_eq!(node_item_style(&node("192.168.1.7", None, vec![], false)), ItemStyle::Dim);
    assert_eq!(node_item_style(&node("192.168.1.1", None, vec![80], false)), ItemStyle::Plain);
}

#[test]
fn private_ranges_are_rfc1918() {
    for ip in ["192.168.1.1", "10.0.0.1", "172.16.0.1", "172.20.0.1", "172.31.0.1"] {
        assert!(is_private(ip), "{ip}");
    }
    for ip in ["8.8.8.8", "1.1.1.1", "172.15.0.1", "172.32.0.1", "172.2.0.1", "172.200.0.1"] {
        assert!(!is_private(ip), "{ip}");
    }
}

fn columns(line: &str) -> usize {
    let mut n = 0;
    let mut in_esc = false;
    for c in line.chars() {
        let u = c as u32;
        if c == '\x1b' {
            in_esc = true;
        } else if in_esc {
            if c.is_ascii_alphabetic() {
                in_esc = false;
            }
        } else if (0x1100..=0x115F).contains(&u)
            || (0x2E80..=0x303F).contains(&u)
            || (0x3040..=0x9FFF).contains(&u)
            || (0xAC00..=0xD7AF).contains(&u)
            || (0xF900..=0xFAFF).contains(&u)
            || (0xFE10..=0xFE19).contains(&u)
            || (0xFE30..=0xFE6F).contains(&u)
            || (0xFF00..=0xFF60).contains(&u)
            || (0xFFE0..=0xFFE6).contains(&u)
        {
            n += 2;
        } else {
            n += 1;
        }
    }
    n
}

#[test]
fn overview_lines_stay_within_80_columns() {
    let long = "a-very-long-host-name-that-goes-on-and-on.example.internal.local.lan.home";
    let nodes = vec![
        node("192.168.1.100", Some(long), vec![], true),
        node("192.168.1.1", Some(long), vec![80], false),
        node("8.8.8.8", Some(long), vec![], false),
    ];
    let mut edges = Vec::new();
    for p in [22u16, 80, 443, 3306, 5432, 6379, 8080, 8443, 9200, 27017] {
        edges.push(edge("192.168.1.100", "192.168.1.1", "TCP", 1, p, 1));
        edges.push(edge("192.168.1.100", "8.8.8.8", "UDP", 1, p, 1));
    }
    let g = graph(nodes, edges, "192.168.1.100");
    for opts in [AsciiOptions::default(), AsciiOptions { use_color: true, ..AsciiOptions::default() }] {
        let out = render_ascii_string_with_opts(&g, &opts);
        assert!(out.contains("局域网设备") && out.contains("公网连接"));
        for line in out.lines() {
            assert!(columns(line) <= 80, "{} columns: {line}", columns(line));
        }
    }
}

#[test]
fn test_node_dedup_same_ip() {
    let nodes = vec![
        node("192.168.1.1", None, vec![80], false),
        node("192.168.1.1", Some("router.local"), vec![443, 80], false),
    ];
    let g = build_graph(nodes, vec![], "10.0.0.99");
    assert_eq!(g.nodes.len(), 1);
    assert_eq!(g.nodes[0].ip, "192.168.1.1");
    assert_eq!(g.nodes[0].ports, vec![80, 443]);
    assert_eq!(g.nodes[0].hostname.as_deref(), Some("router.local"));
    assert_eq!(g.summary.total_nodes, 1);
}

#[test]
fn merged_nodes_keep_order_and_local_mark() {
    let nodes = vec![
        node("10.0.0.2", None, vec![22], false),
        node("10.0.0.1", Some("me"), vec![], false),
        node("10.0.0.2", Some("box"), vec![22, 8080], false),
    ];
    let edges = vec![edge("10.0.0.1", "10.0.0.3", "TCP", 1, 80, 1)];
    let g = build_graph(nodes, edges, "10.0.0.1");
    let ips: Vec<&str> = g.nodes.iter().map(|n| n.ip.as_str()).collect();
    assert_eq!(ips, vec!["10.0.0.2", "10.0.0.1", "10.0.0.3"]);
    assert_eq!(g.nodes[0].ports, vec![22, 8080]);
    assert_eq!(g.nodes[0].hostname.as_deref(), Some("box"));
    assert!(g.nodes[1].is_local && !g.nodes[0].is_local);
}

#[test]
fn dedup_ignores_swapped_neighbours() {
    let a = edge("10.0.0.1", "10.0.0.2", "TCP", 1111, 80, 2);
    let b = edge("10.0.0.1", "10.0.0.2", "TCP", 2222, 80, 5);
    let c = edge("10.0.0.3", "10.0.0.2", "UDP", 3333, 53, 1);
    let one = dedup_edges(vec![a.clone(), b.clone(), c.clone()]);
    let two = dedup_edges(vec![b, a, c]);
    let keys = |v: &Vec<Edge>| {
        v.iter()
            .map(|e| (e.src.clone(), e.dst.clone(), e.protocol.clone(), e.dst_port, e.count))
            .collect::<Vec<_>>()
    };
    assert_eq!(keys(&one), keys(&two));
    assert_eq!(one[0].src_port, 1111);
    assert_eq!(two[0].src_port, 2222);
}

#[test]
fn visual_width_adds_up() {
    let a = "netopo ";
    let b = "拓扑图";
    assert_eq!(visual_width(&(a.to_owned() + b)), visual_width(a) + visual_width(b));
    assert_eq!(visual_width(""), 0);
    assert_eq!(visual_width(b), 6);
}

#[test]
fn hex_address_round_trip_either_case() {
    use_hex("0101A8C0:01BB");
    use_hex("0101a8c0:01bb");
}

fn use_hex(s: &str) {
    let (ip, port) = netopo::connection_tracker::parse_hex_addr(s).unwrap();
    assert_eq!(ip, "192.168.1.1");
    assert_eq!(port, 443);
}
