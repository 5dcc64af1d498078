//! Rendering the topology graph: the Graphviz dot text and the ASCII
//! overview with its helpers (address classes, provider names, port names,
//! connection lists).
use vstd::prelude::*;
use crate::data_manager::{Edge, Graph, GraphView, Node, NodeView, EdgeView};
use crate::text::{dec, push_dec, push_str, str_eq, string_views};
use crate::ascii::{
    ascii_text, build_ascii_text, hostname_of, opt_string_view, opt_views, ports_fit, pub_ips,
    public_ips,
};
use crate::labels::{find_node, find_node_exec, isp_of, isp_of_spec};
use crate::layout::cut16_ok;

verus! {

// ───────────────────────────── Graphviz dot ────────────────────────────────

/// The dot label of a node: its address, its host name if known, and its
/// number of open ports if any, separated by the two characters `\n`.
pub open spec fn node_label(n: NodeView) -> Seq<char> {
    let with_host = match n.hostname {
        Some(h) => n.ip + "\\n"@ + h,
        None => n.ip,
    };
    if n.ports.len() > 0 {
        with_host + "\\n"@ + dec(n.ports.len()) + " ports"@
    } else {
        with_host
    }
}

/// The dot line of a node; the local node is a blue double circle.
pub open spec fn node_line(n: NodeView) -> Seq<char> {
    if n.is_local {
        "  \""@ + n.ip + "\" [label=\""@ + node_label(n) + "\" shape=doublecircle color=blue];\n"@
    } else {
        "  \""@ + n.ip + "\" [label=\""@ + node_label(n) + "\"];\n"@
    }
}

/// The pen width of an edge in tenths: one plus half its count, at most 5.
pub open spec fn pen_tenths(count: u32) -> nat {
    let t = 10 + 5 * count as nat;
    if t > 50 {
        50
    } else {
        t
    }
}

/// The pen width with one decimal.
pub open spec fn pen_text(count: u32) -> Seq<char> {
    dec(pen_tenths(count) / 10) + "."@ + dec(pen_tenths(count) % 10)
}

/// The dot line of a connection; UDP connections are dashed.
pub open spec fn edge_line(e: EdgeView) -> Seq<char> {
    "  \""@ + e.src + "\" -> \""@ + e.dst + "\" [penwidth="@ + pen_text(e.count) + " label=\""@
        + e.protocol + " x"@ + dec(e.count as nat) + "\""@ + (if e.protocol == "UDP"@ {
        " style=dashed"@
    } else {
        Seq::empty()
    }) + "];\n"@
}

pub open spec fn nodes_text(ns: Seq<NodeView>) -> Seq<char>
    decreases ns.len(),
{
    if ns.len() == 0 {
        Seq::empty()
    } else {
        nodes_text(ns.drop_last()) + node_line(ns.last())
    }
}

pub open spec fn edges_text(es: Seq<EdgeView>) -> Seq<char>
    decreases es.len(),
{
    if es.len() == 0 {
        Seq::empty()
    } else {
        edges_text(es.drop_last()) + edge_line(es.last())
    }
}

/// The Graphviz dot text of a graph.
pub open spec fn dot_text(g: GraphView) -> Seq<char> {
    "digraph netopo {\n"@ + "  rankdir=LR;\n"@ + "  node [fontname=\"Helvetica\" fontsize=10];\n"@
        + nodes_text(g.nodes) + edges_text(g.edges) + "}\n"@
}

/// The dot label of a node.
pub fn build_node_label(node: &Node) -> (r: String)
    ensures
        r@ == node_label(node@),
{
    let mut s = node.ip.clone();
    match &node.hostname {
        Some(h) => {
            push_str(&mut s, "\\n");
            push_str(&mut s, h.as_str());
        },
        None => {},
    }
    if node.ports.len() > 0 {
        push_str(&mut s, "\\n");
        push_dec(&mut s, node.ports.len() as u64);
        push_str(&mut s, " ports");
    }
    s
}

fn push_node_line(out: &mut String, node: &Node)
    ensures
        final(out)@ == old(out)@ + node_line(node@),
{
    let label = build_node_label(node);
    push_str(out, "  \"");
    push_str(out, node.ip.as_str());
    push_str(out, "\" [label=\"");
    push_str(out, label.as_str());
    if node.is_local {
        push_str(out, "\" shape=doublecircle color=blue];\n");
    } else {
        push_str(out, "\"];\n");
    }
}

/// Appends the pen width of a count, with one decimal.
pub fn push_pen_width(out: &mut String, count: u32)
    ensures
        final(out)@ == old(out)@ + pen_text(count),
{
    let t: u64 = if count > 8 {
        50
    } else {
        10 + 5 * (count as u64)
    };
    assert(t == pen_tenths(count));
    push_dec(out, t / 10);
    push_str(out, ".");
    push_dec(out, t % 10);
}

fn push_edge_line(out: &mut String, edge: &Edge)
    ensures
        final(out)@ == old(out)@ + edge_line(edge@),
{
    push_str(out, "  \"");
    push_str(out, edge.src.as_str());
    push_str(out, "\" -> \"");
    push_str(out, edge.dst.as_str());
    push_str(out, "\" [penwidth=");
    push_pen_width(out, edge.count);
    push_str(out, " label=\"");
    push_str(out, edge.protocol.as_str());
    push_str(out, " x");
    push_dec(out, edge.count as u64);
    push_str(out, "\"");
    let ghost before = out@;
    if crate::text::str_eq(edge.protocol.as_str(), "UDP") {
        push_str(out, " style=dashed");
    }
    assert(before + Seq::<char>::empty() =~= before);
    push_str(out, "];\n");
}

/// The Graphviz dot text of a graph: a header, a line per node (the local
/// node a blue double circle) and a line per connection (pen width one plus
/// half the count, at most 5, label protocol and count, UDP dashed).
pub fn render_dot_string(graph: &Graph) -> (r: String)
    ensures
        r@ == dot_text(graph@),
{
    let ghost g = graph@;
    let mut dot = String::new();
    push_str(&mut dot, "digraph netopo {\n");
    push_str(&mut dot, "  rankdir=LR;\n");
    push_str(&mut dot, "  node [fontname=\"Helvetica\" fontsize=10];\n");
    let ghost head = dot@;
    let mut i: usize = 0;
    assert(g.nodes.take(0) =~= Seq::<NodeView>::empty());
    assert(head + nodes_text(g.nodes.take(0)) =~= head);
    while i < graph.nodes.len()
        invariant
            i <= g.nodes.len(),
            g == graph@,
            dot@ == head + nodes_text(g.nodes.take(i as int)),
        decreases g.nodes.len() - i,
    {
        push_node_line(&mut dot, &graph.nodes[i]);
        assert(g.nodes.take(i + 1).drop_last() =~= g.nodes.take(i as int));
        assert(g.nodes.take(i + 1).last() == graph.nodes@[i as int]@);
        i += 1;
    }
    assert(g.nodes.take(g.nodes.len() as int) =~= g.nodes);
    let ghost mid = dot@;
    let mut j: usize = 0;
    assert(g.edges.take(0) =~= Seq::<EdgeView>::empty());
    assert(mid + edges_text(g.edges.take(0)) =~= mid);
    while j < graph.edges.len()
        invariant
            j <= g.edges.len(),
            g == graph@,
            dot@ == mid + edges_text(g.edges.take(j as int)),
        decreases g.edges.len() - j,
    {
        push_edge_line(&mut dot, &graph.edges[j]);
        assert(g.edges.take(j + 1).drop_last() =~= g.edges.take(j as int));
        assert(g.edges.take(j + 1).last() == graph.edges@[j as int]@);
        j += 1;
    }
    assert(g.edges.take(g.edges.len() as int) =~= g.edges);
    push_str(&mut dot, "}\n");
    dot
}

// ───────────────────────────── ASCII overview ──────────────────────────────

/// Options of the ASCII overview.
pub struct AsciiOptions {
    pub use_color: bool,
    pub resolve_ports: bool,
    pub filter: Option<String>,
    /// false: at most ten destinations per provider; true: all.
    pub all_connections: bool,
    /// The bytes of a MaxMind ASN database, when one was loaded.
    pub asn_db: Option<Vec<u8>>,
}

impl Default for AsciiOptions {
    fn default() -> (r: AsciiOptions)
        ensures
            !r.use_color,
            !r.resolve_ports,
            r.filter is None,
            !r.all_connections,
            r.asn_db is None,
    {
        AsciiOptions {
            use_color: false,
            resolve_ports: false,
            filter: None,
            all_connections: false,
            asn_db: None,
        }
    }
}

/// The organisation that a MaxMind ASN database (its bytes) records for an
/// address (its text), if any: a function of the two.
pub uninterp spec fn asn_org_of(db: Seq<u8>, ip: Seq<char>) -> Option<Seq<char>>;

/// Opens the database bytes with `maxminddb::Reader::from_source`, calls
/// `Reader::lookup` for the address (parsed from the text) and decodes the
/// record found with `LookupResult::decode` as a `maxminddb::geoip2::Asn`,
/// returning its organisation. Trusted: the answer is the named function of
/// the bytes and the address; nothing more is stated of it. Bytes that do not
/// open, an address that does not parse, an address with no record, or a
/// record that does not decode give `None`. The crate checks every offset it
/// reads from the bytes against the file and returns an error for damaged
/// bytes, so no input makes the call panic.
#[verifier::external_body]
fn asn_organization(db: &[u8], ip: &str) -> (r: Option<String>)
    ensures
        opt_string_view(r) == asn_org_of(db@, ip@),
{
    let reader = maxminddb::Reader::from_source(db).ok()?;
    let addr = ip.parse().ok()?;
    let found = reader.lookup(addr).ok()?;
    let record: maxminddb::geoip2::Asn = found.decode().ok()??;
    record.autonomous_system_organization.map(String::from)
}

/// The host name of the first node with address `ip`.
pub open spec fn host_of(ns: Seq<NodeView>, ip: Seq<char>) -> Option<Seq<char>> {
    hostname_of(find_node(ns, ip))
}

/// What the ASN database is asked for each public destination: its
/// organisation where a database is given and the built-in provider rules
/// give "其他", else nothing.
pub open spec fn asn_orgs(g: GraphView, db: Option<Seq<u8>>) -> Seq<Option<Seq<char>>> {
    let ips = pub_ips(g.edges);
    Seq::new(
        ips.len(),
        |i: int|
            match db {
                Some(d) => if isp_of_spec(host_of(g.nodes, ips[i]), ips[i]) == "其他"@ {
                    asn_org_of(d, ips[i])
                } else {
                    None
                },
                None => None,
            },
    )
}

pub open spec fn opt_bytes_view(o: Option<Vec<u8>>) -> Option<Seq<u8>> {
    match o {
        Some(v) => Some(v@),
        None => None,
    }
}

/// The ASN database's answer for each public destination (see `asn_orgs`).
fn asn_answers(graph: &Graph, ips: &Vec<String>, db: &Option<Vec<u8>>) -> (r: Vec<Option<String>>)
    requires
        string_views(ips@) == pub_ips(graph@.edges),
    ensures
        opt_views(r@) == asn_orgs(graph@, opt_bytes_view(*db)),
{
    let ghost want = asn_orgs(graph@, opt_bytes_view(*db));
    let ghost iv = string_views(ips@);
    let mut r: Vec<Option<String>> = Vec::new();
    let mut i: usize = 0;
    assert(opt_views(r@) =~= want.take(0));
    while i < ips.len()
        invariant
            i <= ips@.len(),
            iv == string_views(ips@),
            iv == pub_ips(graph@.edges),
            want == asn_orgs(graph@, opt_bytes_view(*db)),
            opt_views(r@) == want.take(i as int),
        decreases ips@.len() - i,
    {
        assert(iv[i as int] == ips@[i as int]@);
        let answer: Option<String> = match db {
            Some(bytes) => {
                let node = find_node_exec(&graph.nodes, ips[i].as_str());
                let h: Option<&str> = match node {
                    Some(n) => match &n.hostname {
                        Some(x) => Some(x.as_str()),
                        None => None,
                    },
                    None => None,
                };
                if str_eq(isp_of(h, ips[i].as_str()), "其他") {
                    asn_organization(bytes.as_slice(), ips[i].as_str())
                } else {
                    None
                }
            },
            None => None,
        };
        let ghost before = opt_views(r@);
        r.push(answer);
        assert(opt_views(r@) =~= before.push(want[i as int]));
        assert(want.take(i + 1) =~= want.take(i as int).push(want[i as int]));
        i += 1;
    }
    assert(want.take(ips@.len() as int) =~= want);
    r
}

/// The ASCII overview with the given options (see `ascii::ascii_text`),
/// the ASN database consulted as `asn_orgs` says.
pub fn render_ascii_string_with_opts(graph: &Graph, opts: &AsciiOptions) -> (r: String)
    requires
        cut16_ok(graph@.captured_at),
        ports_fit(graph@.edges),
    ensures
        r@ == ascii_text(
            graph@,
            opts.use_color,
            opts.resolve_ports,
            opt_string_view(opts.filter),
            opts.all_connections,
            asn_orgs(graph@, opt_bytes_view(opts.asn_db)),
        ),
{
    let ips = public_ips(&graph.edges);
    let orgs = asn_answers(graph, &ips, &opts.asn_db);
    assert(opt_views(orgs@).len() == orgs@.len());
    build_ascii_text(graph, opts.use_color, opts.resolve_ports, &opts.filter, opts.all_connections, &orgs)
}

/// The ASCII overview with the default options: no colour, port numbers,
/// no filter, at most ten destinations per provider, no ASN database.
pub fn render_ascii_string(graph: &Graph) -> (r: String)
    requires
        cut16_ok(graph@.captured_at),
        ports_fit(graph@.edges),
    ensures
        r@ == ascii_text(graph@, false, false, None, false, asn_orgs(graph@, None)),
{
    let opts = AsciiOptions::default();
    render_ascii_string_with_opts(graph, &opts)
}


proof fn lemma_nodes_text_concat(a: Seq<NodeView>, b: Seq<NodeView>)
    ensures
        nodes_text(a + b) == nodes_text(a) + nodes_text(b),
    decreases b.len(),
{
    if b.len() == 0 {
        assert(a + b =~= a);
        assert(nodes_text(a) + Seq::<char>::empty() =~= nodes_text(a));
    } else {
        assert((a + b).drop_last() =~= a + b.drop_last());
        assert((a + b).last() == b.last());
        lemma_nodes_text_concat(a, b.drop_last());
        assert(nodes_text(a + b) =~= nodes_text(a) + nodes_text(b));
    }
}

proof fn lemma_edges_text_concat(a: Seq<EdgeView>, b: Seq<EdgeView>)
    ensures
        edges_text(a + b) == edges_text(a) + edges_text(b),
    decreases b.len(),
{
    if b.len() == 0 {
        assert(a + b =~= a);
        assert(edges_text(a) + Seq::<char>::empty() =~= edges_text(a));
    } else {
        assert((a + b).drop_last() =~= a + b.drop_last());
        assert((a + b).last() == b.last());
        lemma_edges_text_concat(a, b.drop_last());
        assert(edges_text(a + b) =~= edges_text(a) + edges_text(b));
    }
}

/// The dot text is the three header lines, then the node lines, then the
/// connection lines, then the closing brace. The node lines are one line per
/// node in order, and the connection lines one per connection in order (the
/// text of two sequences one after the other is the two texts one after the
/// other; that of one element is its line). A node's line ends in
/// `shape=doublecircle color=blue];` exactly when the node is local, a
/// connection's line ends in `style=dashed];` exactly when it is UDP, and
/// every line ends with a newline.
pub proof fn law_dot_structure(g: GraphView, a: Seq<NodeView>, b: Seq<NodeView>, c: Seq<EdgeView>, d: Seq<EdgeView>, n: NodeView, e: EdgeView)
    ensures
        dot_text(g) == "digraph netopo {\n"@ + "  rankdir=LR;\n"@
            + "  node [fontname=\"Helvetica\" fontsize=10];\n"@ + nodes_text(g.nodes) + edges_text(
            g.edges,
        ) + "}\n"@,
        nodes_text(a + b) == nodes_text(a) + nodes_text(b),
        nodes_text(seq![n]) == node_line(n),
        edges_text(c + d) == edges_text(c) + edges_text(d),
        edges_text(seq![e]) == edge_line(e),
        n.is_local == " shape=doublecircle color=blue];\n"@.is_suffix_of(node_line(n)),
        (e.protocol == "UDP"@) == " style=dashed];\n"@.is_suffix_of(edge_line(e)),
        node_line(n).last() == '\n',
        edge_line(e).last() == '\n',
{
    lemma_nodes_text_concat(a, b);
    lemma_edges_text_concat(c, d);
    assert(seq![n].drop_last() =~= Seq::<NodeView>::empty());
    assert(seq![e].drop_last() =~= Seq::<EdgeView>::empty());
    assert(seq![n].last() == n);
    assert(seq![e].last() == e);
    assert(nodes_text(Seq::<NodeView>::empty()) == Seq::<char>::empty());
    assert(edges_text(Seq::<EdgeView>::empty()) == Seq::<char>::empty());
    assert(Seq::<char>::empty() + node_line(n) =~= node_line(n));
    assert(Seq::<char>::empty() + edge_line(e) =~= edge_line(e));
    reveal_strlit(" shape=doublecircle color=blue];\n");
    reveal_strlit("\" shape=doublecircle color=blue];\n");
    reveal_strlit("\"];\n");
    reveal_strlit(" style=dashed];\n");
    reveal_strlit("];\n");
    reveal_strlit(" style=dashed");
    reveal_strlit("\"");
    let sn = " shape=doublecircle color=blue];\n"@;
    let ln = node_line(n);
    if n.is_local {
        let pre = "  \""@ + n.ip + "\" [label=\""@ + node_label(n);
        assert(ln == pre + "\" shape=doublecircle color=blue];\n"@);
        assert(ln.subrange(ln.len() - sn.len(), ln.len() as int) =~= sn);
    } else {
        let pre = "  \""@ + n.ip + "\" [label=\""@ + node_label(n);
        assert(ln == pre + "\"];\n"@);
        if ln.len() >= sn.len() {
            assert(ln[ln.len() - 4] == '"');
            assert(sn[sn.len() - 4] == 'e');
            assert(ln.subrange(ln.len() - sn.len(), ln.len() as int)[sn.len() - 4] == '"');
        }
    }
    let se = " style=dashed];\n"@;
    let le = edge_line(e);
    let head = "  \""@ + e.src + "\" -> \""@ + e.dst + "\" [penwidth="@ + pen_text(e.count) + " label=\""@
        + e.protocol + " x"@ + dec(e.count as nat) + "\""@;
    if e.protocol == "UDP"@ {
        assert(le == head + " style=dashed"@ + "];\n"@);
        assert(" style=dashed"@ + "];\n"@ =~= se);
        assert(le =~= head + se);
        assert(le.subrange(le.len() - se.len(), le.len() as int) =~= se);
    } else {
        assert(le == head + Seq::<char>::empty() + "];\n"@);
        assert(head + Seq::<char>::empty() =~= head);
        assert(head.last() == '"');
        if le.len() >= se.len() {
            assert(le[le.len() - 4] == '"');
            assert(se[se.len() - 4] == 'd');
            assert(le.subrange(le.len() - se.len(), le.len() as int)[se.len() - 4] == '"');
        }
    }
}


/// A node's dot label starts with its address, followed by a line with its
/// host name when it has one; a node with open ports ends its label with a
/// line counting them, whether or not it has a host name; a node without
/// open ports has no such line.
pub proof fn law_node_label_parts(n: NodeView)
    ensures
        n.ip.is_prefix_of(node_label(n)),
        n.hostname matches Some(h) ==> (n.ip + "\\n"@ + h).is_prefix_of(node_label(n)),
        n.ports.len() > 0 ==> ("\\n"@ + dec(n.ports.len()) + " ports"@).is_suffix_of(node_label(n)),
        n.ports.len() > 0 ==> node_label(n).len() == (match n.hostname {
            Some(h) => n.ip.len() + 2 + h.len(),
            None => n.ip.len(),
        }) + ("\\n"@ + dec(n.ports.len()) + " ports"@).len(),
        n.ports.len() == 0 ==> node_label(n) == match n.hostname {
            Some(h) => n.ip + "\\n"@ + h,
            None => n.ip,
        },
{
    reveal_strlit("\\n");
    let lbl = node_label(n);
    let host = match n.hostname {
        Some(h) => n.ip + "\\n"@ + h,
        None => n.ip,
    };
    let tail = "\\n"@ + dec(n.ports.len()) + " ports"@;
    if n.ports.len() > 0 {
        assert(lbl =~= host + tail);
        assert(lbl.subrange(lbl.len() - tail.len(), lbl.len() as int) =~= tail);
        assert(lbl.subrange(0, n.ip.len() as int) =~= n.ip);
        if n.hostname is Some {
            let h = n.hostname->0;
            assert(lbl.subrange(0, (n.ip + "\\n"@ + h).len() as int) =~= n.ip + "\\n"@ + h);
        }
    } else {
        assert(lbl.subrange(0, n.ip.len() as int) =~= n.ip);
        if n.hostname is Some {
            let h = n.hostname->0;
            assert(lbl.subrange(0, (n.ip + "\\n"@ + h).len() as int) =~= n.ip + "\\n"@ + h);
        }
    }
}

} // verus!
