//! The petgraph index of a topology graph: a directed graph whose nodes are
//! the node addresses and whose edges are the connections between them.
use vstd::prelude::*;
use crate::data_manager::{Edge, EdgeView, Node, edge_views, node_views};
use crate::graph_builder::node_ips;
use crate::text::{str_eq, dec, push_dec};
use petgraph::graph::Graph as PetGraph;

verus! {

#[verifier::external_type_specification]
#[verifier::external_body]
#[verifier::reject_recursive_types(N)]
#[verifier::reject_recursive_types(E)]
#[verifier::reject_recursive_types(Ty)]
#[verifier::reject_recursive_types(Ix)]
pub struct ExPetGraph<N, E, Ty, Ix>(PetGraph<N, E, Ty, Ix>);

#[verifier::external_type_specification]
#[verifier::external_body]
pub struct ExDirected(petgraph::Directed);

/// The node weights of a petgraph directed graph, by node index.
pub uninterp spec fn digraph_nodes(g: petgraph::graph::DiGraph<String, String>) -> Seq<Seq<char>>;

/// The edges of a petgraph directed graph, by edge index: source index,
/// target index and weight.
pub uninterp spec fn digraph_edges(g: petgraph::graph::DiGraph<String, String>) -> Seq<(nat, nat, Seq<char>)>;

/// Calls `petgraph::graph::Graph::new` for a directed graph. Trusted: the
/// new graph has no nodes and no edges.
#[verifier::external_body]
fn digraph_new() -> (g: petgraph::graph::DiGraph<String, String>)
    ensures
        digraph_nodes(g) == Seq::<Seq<char>>::empty(),
        digraph_edges(g) == Seq::<(nat, nat, Seq<char>)>::empty(),
{
    petgraph::graph::DiGraph::new()
}

/// Calls `petgraph::graph::Graph::add_node`. Trusted: the weight becomes the
/// last node, the edges stay, and the index returned is the former node
/// count. It panics only when the count reaches `u32::MAX`, which `requires`
/// rules out.
#[verifier::external_body]
fn digraph_add_node(g: &mut petgraph::graph::DiGraph<String, String>, weight: String) -> (idx: usize)
    requires
        digraph_nodes(*old(g)).len() < u32::MAX,
    ensures
        digraph_nodes(*final(g)) == digraph_nodes(*old(g)).push(weight@),
        digraph_edges(*final(g)) == digraph_edges(*old(g)),
        idx == digraph_nodes(*old(g)).len(),
{
    g.add_node(weight).index()
}

/// Calls `petgraph::graph::Graph::add_edge`. Trusted: the edge from node
/// `a` to node `b` with the weight becomes the last edge, the nodes stay,
/// and the index returned is the former edge count. It panics only when a
/// node index is out of range or the edge count reaches `u32::MAX`, which
/// `requires` rules out.
#[verifier::external_body]
fn digraph_add_edge(
    g: &mut petgraph::graph::DiGraph<String, String>,
    a: usize,
    b: usize,
    weight: String,
) -> (idx: usize)
    requires
        a < digraph_nodes(*old(g)).len(),
        b < digraph_nodes(*old(g)).len(),
        digraph_edges(*old(g)).len() < u32::MAX,
    ensures
        digraph_edges(*final(g)) == digraph_edges(*old(g)).push((a as nat, b as nat, weight@)),
        digraph_nodes(*final(g)) == digraph_nodes(*old(g)),
        idx == digraph_edges(*old(g)).len(),
{
    g.add_edge(petgraph::graph::NodeIndex::new(a), petgraph::graph::NodeIndex::new(b), weight).index()
}

/// The index of the last address equal to `ip`, or -1.
pub open spec fn last_index(ips: Seq<Seq<char>>, ip: Seq<char>) -> int
    decreases ips.len(),
{
    if ips.len() == 0 {
        -1
    } else if ips.last() == ip {
        ips.len() - 1
    } else {
        last_index(ips.drop_last(), ip)
    }
}

pub proof fn lemma_last_index(ips: Seq<Seq<char>>, ip: Seq<char>)
    ensures
        -1 <= last_index(ips, ip) < ips.len(),
        last_index(ips, ip) >= 0 ==> ips[last_index(ips, ip)] == ip,
        last_index(ips, ip) == -1 <==> !ips.contains(ip),
    decreases ips.len(),
{
    if ips.len() > 0 {
        lemma_last_index(ips.drop_last(), ip);
        if ips.last() != ip && ips.contains(ip) {
            let q = choose|q: int| 0 <= q < ips.len() && ips[q] == ip;
            assert(ips.drop_last()[q] == ip);
        }
        if ips.last() == ip {
            assert(ips[ips.len() - 1] == ip);
        }
    }
}

/// The label of a connection in the index graph: protocol, " x", count.
pub open spec fn edge_label(e: EdgeView) -> Seq<char> {
    e.protocol + seq![' ', 'x'] + dec(e.count as nat)
}

/// The index-graph edges of `es`: one per connection whose two endpoints
/// have nodes, from the last node of the source address to the last node of
/// the destination address.
pub open spec fn indexed_edges(ips: Seq<Seq<char>>, es: Seq<EdgeView>) -> Seq<(nat, nat, Seq<char>)>
    decreases es.len(),
{
    if es.len() == 0 {
        Seq::empty()
    } else {
        let p = indexed_edges(ips, es.drop_last());
        let e = es.last();
        let a = last_index(ips, e.src);
        let b = last_index(ips, e.dst);
        if a >= 0 && b >= 0 {
            p.push((a as nat, b as nat, edge_label(e)))
        } else {
            p
        }
    }
}

pub proof fn lemma_indexed_edges_len(ips: Seq<Seq<char>>, es: Seq<EdgeView>)
    ensures
        indexed_edges(ips, es).len() <= es.len(),
    decreases es.len(),
{
    if es.len() > 0 {
        lemma_indexed_edges_len(ips, es.drop_last());
    }
}

/// The index of the last node with address `ip`.
pub fn last_node_index(nodes: &Vec<Node>, ip: &str) -> (r: Option<usize>)
    ensures
        match r {
            Some(i) => i as int == last_index(node_ips(node_views(nodes@)), ip@),
            None => last_index(node_ips(node_views(nodes@)), ip@) == -1,
        },
{
    let ghost ips = node_ips(node_views(nodes@));
    let mut found: Option<usize> = None;
    let mut i: usize = 0;
    assert(ips.take(0) =~= Seq::<Seq<char>>::empty());
    while i < nodes.len()
        invariant
            i <= nodes@.len(),
            ips == node_ips(node_views(nodes@)),
            match found {
                Some(x) => x as int == last_index(ips.take(i as int), ip@),
                None => last_index(ips.take(i as int), ip@) == -1,
            },
        decreases nodes@.len() - i,
    {
        assert(ips.take(i + 1).drop_last() =~= ips.take(i as int));
        assert(ips.take(i + 1).last() == ips[i as int]);
        if str_eq(nodes[i].ip.as_str(), ip) {
            found = Some(i);
        }
        i += 1;
    }
    assert(ips.take(nodes@.len() as int) =~= ips);
    found
}

/// The label of a connection in the index graph.
pub fn edge_label_exec(e: &Edge) -> (r: String)
    ensures
        r@ == edge_label(e@),
{
    let mut s = e.protocol.clone();
    s.push(' ');
    s.push('x');
    push_dec(&mut s, e.count as u64);
    assert(s@ == edge_label(e@));
    s
}

/// The petgraph directed graph of the nodes (weighted by address) and of
/// the connections whose endpoints have nodes.
pub fn index_graph(nodes: &Vec<Node>, edges: &Vec<Edge>) -> (g: petgraph::graph::DiGraph<String, String>)
    requires
        nodes@.len() < u32::MAX,
        edges@.len() < u32::MAX,
    ensures
        digraph_nodes(g) == node_ips(node_views(nodes@)),
        digraph_edges(g) == indexed_edges(node_ips(node_views(nodes@)), edge_views(edges@)),
{
    let ghost ips = node_ips(node_views(nodes@));
    let ghost ev = edge_views(edges@);
    let mut g = digraph_new();
    let mut i: usize = 0;
    while i < nodes.len()
        invariant
            i <= nodes@.len(),
            nodes@.len() < u32::MAX,
            ips == node_ips(node_views(nodes@)),
            digraph_nodes(g) == ips.take(i as int),
            digraph_edges(g) == Seq::<(nat, nat, Seq<char>)>::empty(),
        decreases nodes@.len() - i,
    {
        let _ = digraph_add_node(&mut g, nodes[i].ip.clone());
        assert(ips.take(i + 1) =~= ips.take(i as int).push(ips[i as int]));
        i += 1;
    }
    assert(ips.take(nodes@.len() as int) =~= ips);
    assert(ev.take(0) =~= Seq::<EdgeView>::empty());
    let mut j: usize = 0;
    while j < edges.len()
        invariant
            j <= edges@.len(),
            edges@.len() < u32::MAX,
            ips == node_ips(node_views(nodes@)),
            ev == edge_views(edges@),
            digraph_nodes(g) == ips,
            digraph_edges(g) == indexed_edges(ips, ev.take(j as int)),
        decreases edges@.len() - j,
    {
        assert(ev.take(j + 1).drop_last() =~= ev.take(j as int));
        assert(ev.take(j + 1).last() == ev[j as int]);
        proof {
            lemma_indexed_edges_len(ips, ev.take(j as int));
            lemma_last_index(ips, ev[j as int].src);
            lemma_last_index(ips, ev[j as int].dst);
        }
        let a = last_node_index(nodes, edges[j].src.as_str());
        let b = last_node_index(nodes, edges[j].dst.as_str());
        match (a, b) {
            (Some(x), Some(y)) => {
                let label = edge_label_exec(&edges[j]);
                let _ = digraph_add_edge(&mut g, x, y, label);
            },
            _ => {},
        }
        j += 1;
    }
    assert(ev.take(edges@.len() as int) =~= ev);
    g
}

} // verus!
