//! The data types shared by every module: nodes, edges, the topology graph
//! and its summary, each with a mathematical view.
use vstd::prelude::*;

verus! {

/// A network node: one device or one interface.
#[derive(Debug, Clone)]
pub struct Node {
    pub ip: String,
    pub hostname: Option<String>,
    pub ports: Vec<u16>,
    pub is_local: bool,
    pub mac: Option<String>,
    pub interface: Option<String>,
}

/// A directed connection between two nodes.
#[derive(Debug, Clone)]
pub struct Edge {
    pub src: String,
    pub dst: String,
    /// "TCP" | "UDP"
    pub protocol: String,
    pub src_port: u16,
    pub dst_port: u16,
    /// "ESTABLISHED" | "TIME_WAIT" | ...
    pub state: Option<String>,
    /// Number of merged connections.
    pub count: u32,
}

/// The whole topology graph.
#[derive(Debug, Clone)]
pub struct Graph {
    pub nodes: Vec<Node>,
    pub edges: Vec<Edge>,
    /// RFC3339 time stamp.
    pub captured_at: String,
    pub local_ip: String,
    pub summary: GraphSummary,
}

/// Summary counts.
#[derive(Debug, Clone, Copy)]
pub struct GraphSummary {
    pub total_nodes: usize,
    pub total_edges: usize,
    pub tcp_connections: usize,
    pub udp_connections: usize,
    pub scan_duration_ms: u64,
}

/// The view of an optional string.
pub open spec fn opt_view(o: Option<String>) -> Option<Seq<char>> {
    match o {
        Some(s) => Some(s@),
        None => None,
    }
}

pub struct NodeView {
    pub ip: Seq<char>,
    pub hostname: Option<Seq<char>>,
    pub ports: Seq<u16>,
    pub is_local: bool,
    pub mac: Option<Seq<char>>,
    pub interface: Option<Seq<char>>,
}

pub struct EdgeView {
    pub src: Seq<char>,
    pub dst: Seq<char>,
    pub protocol: Seq<char>,
    pub src_port: u16,
    pub dst_port: u16,
    pub state: Option<Seq<char>>,
    pub count: u32,
}

pub struct GraphView {
    pub nodes: Seq<NodeView>,
    pub edges: Seq<EdgeView>,
    pub captured_at: Seq<char>,
    pub local_ip: Seq<char>,
    pub summary: GraphSummary,
}

impl View for Node {
    type V = NodeView;

    open spec fn view(&self) -> NodeView {
        NodeView {
            ip: self.ip@,
            hostname: opt_view(self.hostname),
            ports: self.ports@,
            is_local: self.is_local,
            mac: opt_view(self.mac),
            interface: opt_view(self.interface),
        }
    }
}

impl View for Edge {
    type V = EdgeView;

    open spec fn view(&self) -> EdgeView {
        EdgeView {
            src: self.src@,
            dst: self.dst@,
            protocol: self.protocol@,
            src_port: self.src_port,
            dst_port: self.dst_port,
            state: opt_view(self.state),
            count: self.count,
        }
    }
}

/// The views of a sequence of nodes.
pub open spec fn node_views(v: Seq<Node>) -> Seq<NodeView> {
    Seq::new(v.len(), |i: int| v[i]@)
}

/// The views of a sequence of edges.
pub open spec fn edge_views(v: Seq<Edge>) -> Seq<EdgeView> {
    Seq::new(v.len(), |i: int| v[i]@)
}

impl View for Graph {
    type V = GraphView;

    open spec fn view(&self) -> GraphView {
        GraphView {
            nodes: node_views(self.nodes@),
            edges: edge_views(self.edges@),
            captured_at: self.captured_at@,
            local_ip: self.local_ip@,
            summary: self.summary,
        }
    }
}

pub proof fn lemma_edge_views_push(v: Seq<Edge>, e: Edge)
    ensures
        edge_views(v.push(e)) == edge_views(v).push(e@),
{
    assert(edge_views(v.push(e)) =~= edge_views(v).push(e@));
}

pub proof fn lemma_node_views_push(v: Seq<Node>, n: Node)
    ensures
        node_views(v.push(n)) == node_views(v).push(n@),
{
    assert(node_views(v.push(n)) =~= node_views(v).push(n@));
}

/// Copies an optional string.
pub fn copy_opt_string(o: &Option<String>) -> (r: Option<String>)
    ensures
        opt_view(r) == opt_view(*o),
{
    match o {
        Some(s) => Some(s.clone()),
        None => None,
    }
}

impl Node {
    /// A field-by-field copy.
    pub fn copy(&self) -> (r: Node)
        ensures
            r@ == self@,
    {
        Node {
            ip: self.ip.clone(),
            hostname: copy_opt_string(&self.hostname),
            ports: self.ports.clone(),
            is_local: self.is_local,
            mac: copy_opt_string(&self.mac),
            interface: copy_opt_string(&self.interface),
        }
    }
}

impl Edge {
    /// A field-by-field copy.
    pub fn copy(&self) -> (r: Edge)
        ensures
            r@ == self@,
    {
        Edge {
            src: self.src.clone(),
            dst: self.dst.clone(),
            protocol: self.protocol.clone(),
            src_port: self.src_port,
            dst_port: self.dst_port,
            state: copy_opt_string(&self.state),
            count: self.count,
        }
    }
}

} // verus!
