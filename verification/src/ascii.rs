//! The ASCII overview of a topology graph: a title box, the local network
//! devices reached from the local node, the public addresses grouped by
//! provider, and a summary line with the busiest ports.
use vstd::prelude::*;
use crate::data_manager::{Edge, EdgeView, Graph, GraphSummary, GraphView, Node, NodeView, edge_views, node_views};
use crate::labels::{
    display_name, find_node, find_node_exec, first_local, first_local_exec, is_lan_ip, isp_label,
    isp_label_spec, lan_ip, node_display, port_name, resolve_port_name,
};
use crate::layout::{
    center_in_box, center_text, char_run, cut16_ok, join, pad_right, parse_time_str, push_joined,
    push_padded, push_run, spaces, t_to_space, time_text, trunc, trunc_text, utf8_len, utf8_width,
    utf8_width_exec, display_width, visual_width, lemma_utf8_len_take_mono, is_ascii_alpha,
    law_trunc_within_limit, shown_width, char_width, lemma_shown_width_plain, law_display_width_concat,
};
use crate::order::{
    lemma_sort_dedup_ascending, lemma_sort_dedup_contains, lemma_seq_lt_irreflexive, sort_dedup,
    sort_dedup_strings, strictly_ascending,
};
use crate::text::{
    chars_of, contains_seq, dec, digit_char, push_dec, push_str, spec_to_lowercase, str_contains,
    str_eq, string_views, to_lowercase,
};

verus! {

// ───────────────────────────── colours ─────────────────────────────────────

/// The ANSI colour codes of the overview, as text.
pub struct Palette {
    pub reset: Seq<char>,
    pub local: Seq<char>,
    pub lan_node: Seq<char>,
    pub isp: Seq<char>,
    pub tcp: Seq<char>,
    pub udp: Seq<char>,
    pub sep: Seq<char>,
}

/// The ANSI colour codes of the overview (all empty without colour).
pub struct Colors {
    pub reset: &'static str,
    pub local: &'static str,
    pub lan_node: &'static str,
    pub isp: &'static str,
    pub tcp: &'static str,
    pub udp: &'static str,
    pub sep: &'static str,
}

impl View for Colors {
    type V = Palette;

    open spec fn view(&self) -> Palette {
        Palette {
            reset: self.reset@,
            local: self.local@,
            lan_node: self.lan_node@,
            isp: self.isp@,
            tcp: self.tcp@,
            udp: self.udp@,
            sep: self.sep@,
        }
    }
}

/// Bright blue bold for the local node, green for local network devices,
/// yellow bold for providers, cyan for TCP, yellow for UDP, dark grey for
/// rules; nothing when colour is off.
pub open spec fn palette(enabled: bool) -> Palette {
    if enabled {
        Palette {
            reset: "\x1b[0m"@,
            local: "\x1b[1;94m"@,
            lan_node: "\x1b[32m"@,
            isp: "\x1b[1;33m"@,
            tcp: "\x1b[36m"@,
            udp: "\x1b[33m"@,
            sep: "\x1b[90m"@,
        }
    } else {
        Palette {
            reset: ""@,
            local: ""@,
            lan_node: ""@,
            isp: ""@,
            tcp: ""@,
            udp: ""@,
            sep: ""@,
        }
    }
}

impl Colors {
    pub fn new(enabled: bool) -> (r: Colors)
        ensures
            r@ == palette(enabled),
    {
        if enabled {
            Colors {
                reset: "\x1b[0m",
                local: "\x1b[1;94m",
                lan_node: "\x1b[32m",
                isp: "\x1b[1;33m",
                tcp: "\x1b[36m",
                udp: "\x1b[33m",
                sep: "\x1b[90m",
            }
        } else {
            Colors { reset: "", local: "", lan_node: "", isp: "", tcp: "", udp: "", sep: "" }
        }
    }
}

// ───────────────────────────── connection lists ────────────────────────────

/// A port shown by number, or by service name when names are asked for and
/// known.
pub open spec fn port_label(p: u16, resolve: bool) -> Seq<char> {
    if resolve {
        match port_name(p) {
            Some(n) => n,
            None => dec(p as nat),
        }
    } else {
        dec(p as nat)
    }
}

/// One connection in a list: coloured "PROTO:PORT", with " xN" when merged
/// from several.
pub open spec fn conn_part(e: EdgeView, resolve: bool, c: Palette) -> Seq<char> {
    let color = if e.protocol == "TCP"@ {
        c.tcp
    } else {
        c.udp
    };
    if e.count > 1 {
        color + e.protocol + ":"@ + port_label(e.dst_port, resolve) + " x"@ + dec(e.count as nat)
            + c.reset
    } else {
        color + e.protocol + ":"@ + port_label(e.dst_port, resolve) + c.reset
    }
}

/// The connection goes to `dst` (and comes from `src` when one is given).
pub open spec fn conn_selected(e: EdgeView, src: Option<Seq<char>>, dst: Seq<char>) -> bool {
    e.dst == dst && match src {
        Some(s) => e.src == s,
        None => true,
    }
}

pub open spec fn conn_parts(
    es: Seq<EdgeView>,
    src: Option<Seq<char>>,
    dst: Seq<char>,
    resolve: bool,
    c: Palette,
) -> Seq<Seq<char>>
    decreases es.len(),
{
    if es.len() == 0 {
        Seq::empty()
    } else {
        let p = conn_parts(es.drop_last(), src, dst, resolve, c);
        if conn_selected(es.last(), src, dst) {
            p.push(conn_part(es.last(), resolve, c))
        } else {
            p
        }
    }
}

/// The connections to `dst` (from `src` if given) as distinct sorted parts
/// separated by two spaces.
pub open spec fn conns_text(
    es: Seq<EdgeView>,
    src: Option<Seq<char>>,
    dst: Seq<char>,
    resolve: bool,
    c: Palette,
) -> Seq<char> {
    join(sort_dedup(conn_parts(es, src, dst, resolve, c)), "  "@)
}

/// Appends the label of a port.
pub fn push_port_label(out: &mut String, p: u16, resolve: bool)
    ensures
        final(out)@ == old(out)@ + port_label(p, resolve),
{
    if resolve {
        match resolve_port_name(p) {
            Some(n) => {
                push_str(out, n);
                return;
            },
            None => {},
        }
    }
    push_dec(out, p as u64);
}

fn conn_part_exec(e: &Edge, resolve: bool, colors: &Colors) -> (r: String)
    ensures
        r@ == conn_part(e@, resolve, colors@),
{
    let mut s = String::new();
    if str_eq(e.protocol.as_str(), "TCP") {
        push_str(&mut s, colors.tcp);
    } else {
        push_str(&mut s, colors.udp);
    }
    push_str(&mut s, e.protocol.as_str());
    push_str(&mut s, ":");
    push_port_label(&mut s, e.dst_port, resolve);
    if e.count > 1 {
        push_str(&mut s, " x");
        push_dec(&mut s, e.count as u64);
    }
    push_str(&mut s, colors.reset);
    s
}

pub open spec fn opt_str_view(o: Option<&str>) -> Option<Seq<char>> {
    match o {
        Some(s) => Some(s@),
        None => None,
    }
}

/// The connections to `dst_ip` (from `src_ip` if given), as distinct sorted
/// parts (see `conns_text`).
pub fn fmt_conns_ex(
    edges: &Vec<Edge>,
    src_ip: Option<&str>,
    dst_ip: &str,
    resolve_ports: bool,
    colors: &Colors,
) -> (r: String)
    ensures
        r@ == conns_text(edge_views(edges@), opt_str_view(src_ip), dst_ip@, resolve_ports, colors@),
{
    let ghost ev = edge_views(edges@);
    let ghost src = opt_str_view(src_ip);
    let mut parts: Vec<String> = Vec::new();
    let mut i: usize = 0;
    assert(ev.take(0) =~= Seq::<EdgeView>::empty());
    assert(string_views(parts@) =~= Seq::<Seq<char>>::empty());
    while i < edges.len()
        invariant
            i <= edges@.len(),
            ev == edge_views(edges@),
            src == opt_str_view(src_ip),
            string_views(parts@) == conn_parts(ev.take(i as int), src, dst_ip@, resolve_ports, colors@),
        decreases edges@.len() - i,
    {
        assert(ev.take(i + 1).drop_last() =~= ev.take(i as int));
        assert(ev.take(i + 1).last() == edges@[i as int]@);
        let e = &edges[i];
        let selected = str_eq(e.dst.as_str(), dst_ip) && match src_ip {
            Some(s) => str_eq(e.src.as_str(), s),
            None => true,
        };
        if selected {
            let p = conn_part_exec(e, resolve_ports, colors);
            let ghost before = string_views(parts@);
            parts.push(p);
            assert(string_views(parts@) =~= before.push(p@));
        }
        i += 1;
    }
    assert(ev.take(edges@.len() as int) =~= ev);
    let sorted = sort_dedup_strings(&parts);
    let mut r = String::new();
    push_joined(&mut r, &sorted, "  ");
    assert(r@ =~= conns_text(ev, src, dst_ip@, resolve_ports, colors@));
    r
}

// ───────────────────────────── busiest ports ───────────────────────────────

/// The sum of the counts of the connections to port `p`.
pub open spec fn port_sum(es: Seq<EdgeView>, p: u16) -> nat
    decreases es.len(),
{
    if es.len() == 0 {
        0
    } else {
        port_sum(es.drop_last(), p) + if es.last().dst_port == p {
            es.last().count as nat
        } else {
            0
        }
    }
}

/// No port's count sum overflows a `u32`, which the port ranking requires.
pub open spec fn ports_fit(es: Seq<EdgeView>) -> bool {
    forall|p: u16| #[trigger] port_sum(es, p) <= u32::MAX
}

/// The destination ports in order of first appearance, each once.
pub open spec fn distinct_ports(es: Seq<EdgeView>) -> Seq<u16>
    decreases es.len(),
{
    if es.len() == 0 {
        Seq::empty()
    } else {
        let d = distinct_ports(es.drop_last());
        if d.contains(es.last().dst_port) {
            d
        } else {
            d.push(es.last().dst_port)
        }
    }
}

/// A port ranks before another with a greater count, or the same count and
/// a smaller number.
pub open spec fn ranked_before(a: (u16, nat), b: (u16, nat)) -> bool {
    a.1 > b.1 || (a.1 == b.1 && a.0 < b.0)
}

/// `x` placed before the first entry it ranks before.
pub open spec fn insert_ranked(r: Seq<(u16, nat)>, x: (u16, nat)) -> Seq<(u16, nat)>
    decreases r.len(),
{
    if r.len() == 0 {
        seq![x]
    } else if ranked_before(x, r[0]) {
        seq![x] + r
    } else {
        seq![r[0]] + insert_ranked(r.drop_first(), x)
    }
}

/// The entries sorted by rank.
pub open spec fn ranked(ps: Seq<(u16, nat)>) -> Seq<(u16, nat)>
    decreases ps.len(),
{
    if ps.len() == 0 {
        Seq::empty()
    } else {
        insert_ranked(ranked(ps.drop_last()), ps.last())
    }
}

/// Each destination port with the sum of its counts.
pub open spec fn port_totals(es: Seq<EdgeView>) -> Seq<(u16, nat)> {
    distinct_ports(es).map_values(|p: u16| (p, port_sum(es, p)))
}

/// The (at most) three busiest ports.
pub open spec fn top_ports(es: Seq<EdgeView>) -> Seq<(u16, nat)> {
    let r = ranked(port_totals(es));
    if r.len() > 3 {
        r.take(3)
    } else {
        r
    }
}

pub open spec fn top_text(t: (u16, nat), resolve: bool) -> Seq<char> {
    port_label(t.0, resolve) + "(x"@ + dec(t.1) + ")"@
}

pub open spec fn top_texts(ts: Seq<(u16, nat)>, resolve: bool) -> Seq<Seq<char>> {
    ts.map_values(|t: (u16, nat)| top_text(t, resolve))
}

/// The summary line: connection counts, then the busiest ports if any.
pub open spec fn summary_text(s: GraphSummary, es: Seq<EdgeView>, resolve: bool) -> Seq<char> {
    let base = "活跃连接: "@ + dec(s.total_edges as nat) + "  │  TCP: "@ + dec(
        s.tcp_connections as nat,
    ) + "  UDP: "@ + dec(s.udp_connections as nat);
    let top = top_ports(es);
    if top.len() == 0 {
        base
    } else {
        base + "  │  Top端口: "@ + join(top_texts(top, resolve), " "@)
    }
}

/// A rule, then the summary line cut to 79 columns.
pub open spec fn footer_text(c: Palette, s: GraphSummary, es: Seq<EdgeView>, resolve: bool) -> Seq<char> {
    c.sep + char_run('─', 79) + c.reset + "\n"@ + trunc_text(summary_text(s, es, resolve), 79)
        + "\n"@
}

pub open spec fn pair_views(v: Seq<(u16, u32)>) -> Seq<(u16, nat)> {
    Seq::new(v.len(), |i: int| (v[i].0, v[i].1 as nat))
}

proof fn lemma_port_sum_prefix(es: Seq<EdgeView>, i: int, p: u16)
    requires
        0 <= i <= es.len(),
    ensures
        port_sum(es.take(i), p) <= port_sum(es, p),
    decreases es.len(),
{
    if i < es.len() {
        assert(es.drop_last().take(i) =~= es.take(i));
        lemma_port_sum_prefix(es.drop_last(), i, p);
    } else {
        assert(es.take(i) =~= es);
    }
}

proof fn lemma_port_sum_absent(es: Seq<EdgeView>, p: u16)
    requires
        !distinct_ports(es).contains(p),
    ensures
        port_sum(es, p) == 0,
    decreases es.len(),
{
    if es.len() > 0 {
        let d = distinct_ports(es.drop_last());
        if d.contains(p) {
            let q = choose|q: int| 0 <= q < d.len() && d[q] == p;
            if !d.contains(es.last().dst_port) {
                assert(distinct_ports(es)[q] == p);
            }
        }
        if es.last().dst_port == p {
            if !d.contains(p) {
                assert(distinct_ports(es)[d.len() as int] == p);
            }
        }
        lemma_port_sum_absent(es.drop_last(), p);
    }
}

proof fn lemma_insert_ranked_at(r: Seq<(u16, nat)>, x: (u16, nat), j: int)
    requires
        0 <= j <= r.len(),
        forall|m: int| 0 <= m < j ==> !ranked_before(x, #[trigger] r[m]),
        j < r.len() ==> ranked_before(x, r[j]),
    ensures
        insert_ranked(r, x) == r.insert(j, x),
    decreases r.len(),
{
    if r.len() == 0 {
        assert(r.insert(j, x) =~= seq![x]);
    } else if j == 0 {
        assert(r.insert(0, x) =~= seq![x] + r);
    } else {
        let t = r.drop_first();
        assert forall|m: int| 0 <= m < j - 1 implies !ranked_before(x, #[trigger] t[m]) by {
            assert(t[m] == r[m + 1]);
        }
        assert(!ranked_before(x, r[0]));
        lemma_insert_ranked_at(t, x, j - 1);
        assert(seq![r[0]] + t.insert(j - 1, x) =~= r.insert(j, x));
    }
}

/// The destination ports in order of first appearance, each once.
fn distinct_ports_exec(edges: &Vec<Edge>) -> (r: Vec<u16>)
    ensures
        r@ == distinct_ports(edge_views(edges@)),
{
    let ghost ev = edge_views(edges@);
    let mut d: Vec<u16> = Vec::new();
    let mut i: usize = 0;
    assert(ev.take(0) =~= Seq::<EdgeView>::empty());
    while i < edges.len()
        invariant
            i <= edges@.len(),
            ev == edge_views(edges@),
            d@ == distinct_ports(ev.take(i as int)),
        decreases edges@.len() - i,
    {
        assert(ev.take(i + 1).drop_last() =~= ev.take(i as int));
        assert(ev.take(i + 1).last() == edges@[i as int]@);
        let p = edges[i].dst_port;
        let mut found = false;
        let mut k: usize = 0;
        while k < d.len()
            invariant
                k <= d@.len(),
                found == exists|m: int| 0 <= m < k && d@[m] == p,
            decreases d@.len() - k,
        {
            if d[k] == p {
                found = true;
            }
            k += 1;
        }
        if !found {
            d.push(p);
        }
        i += 1;
    }
    assert(ev.take(edges@.len() as int) =~= ev);
    d
}

/// The sum of the counts of the connections to port `p`.
fn port_sum_exec(edges: &Vec<Edge>, p: u16) -> (r: u32)
    requires
        ports_fit(edge_views(edges@)),
    ensures
        r == port_sum(edge_views(edges@), p),
{
    let ghost ev = edge_views(edges@);
    let mut sum: u32 = 0;
    let mut j: usize = 0;
    assert(ev.take(0) =~= Seq::<EdgeView>::empty());
    while j < edges.len()
        invariant
            j <= edges@.len(),
            ev == edge_views(edges@),
            ports_fit(ev),
            sum == port_sum(ev.take(j as int), p),
        decreases edges@.len() - j,
    {
        assert(ev.take(j + 1).drop_last() =~= ev.take(j as int));
        assert(ev.take(j + 1).last() == edges@[j as int]@);
        proof {
            lemma_port_sum_prefix(ev, j + 1, p);
            assert(port_sum(ev, p) <= u32::MAX);
        }
        if edges[j].dst_port == p {
            sum = sum + edges[j].count;
        }
        j += 1;
    }
    assert(ev.take(edges@.len() as int) =~= ev);
    sum
}

/// Whether no port's count sum overflows a `u32`, which the ASCII overview
/// requires.
pub fn port_counts_fit(edges: &Vec<Edge>) -> (r: bool)
    ensures
        r == ports_fit(edge_views(edges@)),
{
    let ghost ev = edge_views(edges@);
    let d = distinct_ports_exec(edges);
    let mut k: usize = 0;
    while k < d.len()
        invariant
            k <= d@.len(),
            ev == edge_views(edges@),
            d@ == distinct_ports(ev),
            forall|m: int| 0 <= m < k ==> port_sum(ev, #[trigger] d@[m]) <= u32::MAX,
        decreases d@.len() - k,
    {
        let p = d[k];
        let mut sum: u64 = 0;
        let mut j: usize = 0;
        assert(ev.take(0) =~= Seq::<EdgeView>::empty());
        while j < edges.len()
            invariant
                j <= edges@.len(),
                ev == edge_views(edges@),
                sum == port_sum(ev.take(j as int), p),
                sum <= u32::MAX,
            decreases edges@.len() - j,
        {
            assert(ev.take(j + 1).drop_last() =~= ev.take(j as int));
            assert(ev.take(j + 1).last() == edges@[j as int]@);
            if edges[j].dst_port == p {
                sum = sum + edges[j].count as u64;
                if sum > 0xffff_ffff {
                    proof {
                        lemma_port_sum_prefix(ev, j + 1, p);
                    }
                    return false;
                }
            }
            j += 1;
        }
        assert(ev.take(edges@.len() as int) =~= ev);
        k += 1;
    }
    assert forall|p: u16| #[trigger] port_sum(ev, p) <= u32::MAX by {
        if d@.contains(p) {
            let m = choose|m: int| 0 <= m < d@.len() && d@[m] == p;
            assert(port_sum(ev, d@[m]) <= u32::MAX);
        } else {
            lemma_port_sum_absent(ev, p);
        }
    }
    true
}

/// The ports sorted by rank, each with the sum of its counts.
fn ranked_ports(edges: &Vec<Edge>) -> (r: Vec<(u16, u32)>)
    requires
        ports_fit(edge_views(edges@)),
    ensures
        pair_views(r@) == ranked(port_totals(edge_views(edges@))),
{
    let ghost ev = edge_views(edges@);
    let ghost totals = port_totals(ev);
    let d = distinct_ports_exec(edges);
    let mut r: Vec<(u16, u32)> = Vec::new();
    let mut k: usize = 0;
    assert(totals.take(0) =~= Seq::<(u16, nat)>::empty());
    assert(pair_views(r@) =~= Seq::<(u16, nat)>::empty());
    while k < d.len()
        invariant
            k <= d@.len(),
            ev == edge_views(edges@),
            ports_fit(ev),
            d@ == distinct_ports(ev),
            totals == port_totals(ev),
            pair_views(r@) == ranked(totals.take(k as int)),
        decreases d@.len() - k,
    {
        let p = d[k];
        let c = port_sum_exec(edges, p);
        let ghost x = (p, c as nat);
        let ghost rv = pair_views(r@);
        assert(totals.take(k + 1).drop_last() =~= totals.take(k as int));
        assert(totals.take(k + 1).last() == x);
        let mut j: usize = 0;
        while j < r.len() && !(c > r[j].1 || (c == r[j].1 && p < r[j].0))
            invariant
                j <= r@.len(),
                rv == pair_views(r@),
                x == (p, c as nat),
                forall|m: int| 0 <= m < j ==> !ranked_before(x, #[trigger] rv[m]),
            decreases r@.len() - j,
        {
            assert(rv[j as int] == (r@[j as int].0, r@[j as int].1 as nat));
            j += 1;
        }
        proof {
            if j < r@.len() {
                assert(rv[j as int] == (r@[j as int].0, r@[j as int].1 as nat));
            }
            lemma_insert_ranked_at(rv, x, j as int);
        }
        r.insert(j, (p, c));
        assert(pair_views(r@) =~= rv.insert(j as int, x));
        k += 1;
    }
    assert(totals.take(d@.len() as int) =~= totals);
    r
}

/// Appends the rule and the summary line (see `footer_text`).
fn push_footer(out: &mut String, colors: &Colors, summary: &GraphSummary, edges: &Vec<Edge>, resolve: bool)
    requires
        ports_fit(edge_views(edges@)),
    ensures
        final(out)@ == old(out)@ + footer_text(colors@, *summary, edge_views(edges@), resolve),
{
    let ghost ev = edge_views(edges@);
    push_str(out, colors.sep);
    push_run(out, '─', 79);
    push_str(out, colors.reset);
    push_str(out, "\n");
    let mut s = String::new();
    push_str(&mut s, "活跃连接: ");
    push_dec(&mut s, summary.total_edges as u64);
    push_str(&mut s, "  │  TCP: ");
    push_dec(&mut s, summary.tcp_connections as u64);
    push_str(&mut s, "  UDP: ");
    push_dec(&mut s, summary.udp_connections as u64);
    let ranked_list = ranked_ports(edges);
    let n: usize = if ranked_list.len() > 3 {
        3
    } else {
        ranked_list.len()
    };
    let ghost top = top_ports(ev);
    assert(pair_views(ranked_list@).len() == ranked_list@.len());
    assert(top.len() == n);
    if n > 0 {
        let mut texts: Vec<String> = Vec::new();
        let mut k: usize = 0;
        while k < n
            invariant
                k <= n,
                n <= ranked_list@.len(),
                top.len() == n,
                forall|m: int| 0 <= m < n ==> #[trigger] top[m] == pair_views(ranked_list@)[m],
                string_views(texts@) == top_texts(top.take(k as int), resolve),
            decreases n - k,
        {
            let (p, c) = ranked_list[k];
            let mut t = String::new();
            push_port_label(&mut t, p, resolve);
            push_str(&mut t, "(x");
            push_dec(&mut t, c as u64);
            push_str(&mut t, ")");
            assert(top[k as int] == (p, c as nat));
            assert(t@ == top_text(top[k as int], resolve));
            let ghost before = string_views(texts@);
            texts.push(t);
            assert(string_views(texts@) =~= before.push(t@));
            assert(top_texts(top.take(k + 1), resolve) =~= top_texts(top.take(k as int), resolve).push(
                top_text(top[k as int], resolve),
            ));
            k += 1;
        }
        assert(top.take(n as int) =~= top);
        push_str(&mut s, "  │  Top端口: ");
        push_joined(&mut s, &texts, " ");
    }
    assert(s@ == summary_text(*summary, ev, resolve));
    let cut = trunc(s.as_str(), 79);
    push_str(out, cut.as_str());
    push_str(out, "\n");
}

// ───────────────────────────── title box ───────────────────────────────────

/// The number of UTF-8 bytes of a short text.
fn utf8_len_exec(s: &str) -> (r: usize)
    requires
        s@.len() <= 64,
    ensures
        r == utf8_len(s@),
{
    let v = chars_of(s);
    let mut n: usize = 0;
    let mut i: usize = 0;
    assert(v@.take(0) =~= Seq::<char>::empty());
    while i < v.len()
        invariant
            i <= v@.len(),
            v@ == s@,
            v@.len() <= 64,
            n == utf8_len(v@.take(i as int)),
            n <= 4 * i,
        decreases v@.len() - i,
    {
        assert(v@.take(i + 1).drop_last() =~= v@.take(i as int));
        n = n + utf8_width_exec(v[i]);
        i += 1;
    }
    assert(v@.take(v@.len() as int) =~= v@);
    n
}

proof fn lemma_utf8_len_ge_len(s: Seq<char>)
    ensures
        utf8_len(s) >= s.len(),
    decreases s.len(),
{
    if s.len() > 0 {
        lemma_utf8_len_ge_len(s.drop_last());
    }
}

/// A horizontal frame line of 42 double rules between two corners.
pub open spec fn rule_line(c: Palette, left: Seq<char>, right: Seq<char>) -> Seq<char> {
    c.sep + left + char_run('═', 42) + right + c.reset
}

/// A framed line holding `content`.
pub open spec fn boxed_line(c: Palette, content: Seq<char>) -> Seq<char> {
    c.sep + "║"@ + c.reset + content + c.sep + "║"@ + c.reset + "\n"@
}

/// The title box: a double-lined frame of 42 columns around the centred
/// title and the capture time.
pub open spec fn title_text(c: Palette, captured: Seq<char>) -> Seq<char> {
    let t = time_text(captured);
    rule_line(c, "╔"@, "╗"@) + "\n"@ + boxed_line(
        c,
        center_text("netopo 拓扑图"@, display_width("netopo 拓扑图"@), 42),
    ) + boxed_line(c, center_text(t, utf8_len(t), 42)) + rule_line(c, "╚"@, "╝"@) + "\n\n"@
}

fn push_rule_line(out: &mut String, colors: &Colors, left: &str, right: &str)
    ensures
        final(out)@ == old(out)@ + rule_line(colors@, left@, right@),
{
    push_str(out, colors.sep);
    push_str(out, left);
    push_run(out, '═', 42);
    push_str(out, right);
    push_str(out, colors.reset);
    assert(out@ =~= old(out)@ + rule_line(colors@, left@, right@));
}

fn push_boxed_line(out: &mut String, colors: &Colors, content: &str)
    ensures
        final(out)@ == old(out)@ + boxed_line(colors@, content@),
{
    push_str(out, colors.sep);
    push_str(out, "║");
    push_str(out, colors.reset);
    push_str(out, content);
    push_str(out, colors.sep);
    push_str(out, "║");
    push_str(out, colors.reset);
    push_str(out, "\n");
    assert(out@ =~= old(out)@ + boxed_line(colors@, content@));
}

fn push_title(out: &mut String, colors: &Colors, captured_at: &str)
    requires
        cut16_ok(captured_at@),
    ensures
        final(out)@ == old(out)@ + title_text(colors@, captured_at@),
{
    let title = "netopo 拓扑图";
    proof {
        reveal_strlit("netopo 拓扑图");
    }
    let title_vw = visual_width(title);
    let title_centered = center_in_box(title, title_vw, 42);
    let time_str = parse_time_str(captured_at);
    proof {
        let s = captured_at@;
        if utf8_len(s) >= 16 {
            let k = choose|k: int| 0 <= k <= s.len() && utf8_len(s.take(k)) == 16;
            lemma_utf8_len_ge_len(s.take(k));
        } else {
            lemma_utf8_len_ge_len(s);
        }
    }
    let time_vw = utf8_len_exec(time_str.as_str());
    let time_centered = center_in_box(time_str.as_str(), time_vw, 42);
    let ghost o0 = out@;
    push_rule_line(out, colors, "╔", "╗");
    push_str(out, "\n");
    push_boxed_line(out, colors, title_centered.as_str());
    push_boxed_line(out, colors, time_centered.as_str());
    push_rule_line(out, colors, "╚", "╝");
    push_str(out, "\n\n");
    assert(out@ =~= o0 + title_text(colors@, captured_at@));
}

// ───────────────────────────── local network section ───────────────────────

/// The number of nodes on the local network.
pub open spec fn lan_count(ns: Seq<NodeView>) -> nat
    decreases ns.len(),
{
    if ns.len() == 0 {
        0
    } else {
        lan_count(ns.drop_last()) + if lan_ip(ns.last().ip) {
            1nat
        } else {
            0
        }
    }
}

/// The local network destinations of the local node's connections, in order
/// of first appearance, each once.
pub open spec fn local_dsts(es: Seq<EdgeView>, local_ip: Seq<char>) -> Seq<Seq<char>>
    decreases es.len(),
{
    if es.len() == 0 {
        Seq::empty()
    } else {
        let d = local_dsts(es.drop_last(), local_ip);
        let e = es.last();
        if e.src == local_ip && lan_ip(e.dst) && !d.contains(e.dst) {
            d.push(e.dst)
        } else {
            d
        }
    }
}

/// An address passes the (lower-case) keyword when there is none, or its
/// lower-cased address or display name contains it.
pub open spec fn kw_match(kw: Option<Seq<char>>, ns: Seq<NodeView>, ip: Seq<char>) -> bool {
    match kw {
        None => true,
        Some(k) => contains_seq(spec_to_lowercase(ip), k) || contains_seq(
            spec_to_lowercase(display_name(find_node(ns, ip), ip)),
            k,
        ),
    }
}

pub open spec fn kw_filter(ds: Seq<Seq<char>>, kw: Option<Seq<char>>, ns: Seq<NodeView>) -> Seq<Seq<char>>
    decreases ds.len(),
{
    if ds.len() == 0 {
        Seq::empty()
    } else {
        let p = kw_filter(ds.drop_last(), kw, ns);
        if kw_match(kw, ns, ds.last()) {
            p.push(ds.last())
        } else {
            p
        }
    }
}

pub open spec fn connector(is_last: bool) -> Seq<char> {
    if is_last {
        "└─►"@
    } else {
        "├─►"@
    }
}

/// A destination under the local node: the connector and the padded display
/// name cut to 47 columns, then its connections from the local node, the
/// whole line cut to 79 columns.
pub open spec fn lan_line(
    c: Palette,
    ns: Seq<NodeView>,
    es: Seq<EdgeView>,
    local_ip: Seq<char>,
    dst: Seq<char>,
    is_last: bool,
    resolve: bool,
) -> Seq<char> {
    trunc_text(
        c.lan_node + trunc_text(
            "  "@ + connector(is_last) + " "@ + pad_right(display_name(find_node(ns, dst), dst), 38)
                + "  "@,
            47,
        ) + c.reset + conns_text(es, Some(local_ip), dst, resolve, c),
        79,
    ) + "\n"@
}

pub open spec fn lan_lines(
    ds: Seq<Seq<char>>,
    k: nat,
    c: Palette,
    ns: Seq<NodeView>,
    es: Seq<EdgeView>,
    local_ip: Seq<char>,
    resolve: bool,
) -> Seq<char>
    decreases k,
{
    if k == 0 || k > ds.len() {
        Seq::empty()
    } else {
        lan_lines(ds, (k - 1) as nat, c, ns, es, local_ip, resolve) + lan_line(
            c,
            ns,
            es,
            local_ip,
            ds[k - 1],
            k == ds.len(),
            resolve,
        )
    }
}

pub open spec fn local_header(l: NodeView) -> Seq<char> {
    match l.hostname {
        Some(h) => "[★ "@ + h + "] ("@ + l.ip + ")"@,
        None => "[★ "@ + l.ip + "]"@,
    }
}

/// The heading of the local network section, with the number of local
/// network nodes.
pub open spec fn lan_heading(c: Palette, ns: Seq<NodeView>) -> Seq<char> {
    c.sep + "━━━ 局域网设备 ("@ + dec(lan_count(ns)) + ") ━━━━━━━━━━━━━━━━━━━━"@ + c.reset + "\n\n"@
}

/// The destinations shown under the local node.
pub open spec fn lan_shown(g: GraphView, local_ip: Seq<char>, kw: Option<Seq<char>>) -> Seq<Seq<char>> {
    kw_filter(local_dsts(g.edges, local_ip), kw, g.nodes)
}

/// The local node's line: its header cut to 78 columns.
pub open spec fn local_line(c: Palette, l: NodeView) -> Seq<char> {
    "  "@ + c.local + trunc_text(local_header(l), 78) + c.reset + "\n"@
}

/// The local node, then the local network destinations it reaches.
pub open spec fn local_block(
    c: Palette,
    g: GraphView,
    l: NodeView,
    kw: Option<Seq<char>>,
    resolve: bool,
) -> Seq<char> {
    let ds = lan_shown(g, l.ip, kw);
    local_line(c, l) + lan_lines(
        ds,
        ds.len(),
        c,
        g.nodes,
        g.edges,
        l.ip,
        resolve,
    ) + "\n"@
}

/// The local network section: its heading, then the local node (the first
/// one marked local) with the local network destinations it reaches.
pub open spec fn lan_section(c: Palette, g: GraphView, kw: Option<Seq<char>>, resolve: bool) -> Seq<char> {
    lan_heading(c, g.nodes) + match first_local(g.nodes) {
        None => Seq::empty(),
        Some(l) => local_block(c, g, l, kw, resolve),
    }
}

/// Whether `x` is among the texts.
pub fn vec_contains_str(v: &Vec<String>, x: &str) -> (r: bool)
    ensures
        r == string_views(v@).contains(x@),
{
    let ghost sv = string_views(v@);
    let mut i: usize = 0;
    while i < v.len()
        invariant
            i <= v@.len(),
            sv == string_views(v@),
            forall|m: int| 0 <= m < i ==> sv[m] != x@,
        decreases v@.len() - i,
    {
        if str_eq(v[i].as_str(), x) {
            assert(sv[i as int] == x@);
            return true;
        }
        i += 1;
    }
    false
}

pub open spec fn opt_view_str(o: Option<&str>) -> Option<Seq<char>> {
    match o {
        Some(s) => Some(s@),
        None => None,
    }
}

/// Whether an address passes the keyword (see `kw_match`).
fn kw_match_exec(kw: Option<&str>, nodes: &Vec<Node>, ip: &str) -> (r: bool)
    ensures
        r == kw_match(opt_view_str(kw), node_views(nodes@), ip@),
{
    match kw {
        None => true,
        Some(k) => {
            let node = find_node_exec(nodes, ip);
            let label = node_display(node, ip);
            let lower_label = to_lowercase(label.as_str());
            let lower_ip = to_lowercase(ip);
            str_contains(lower_ip.as_str(), k) || str_contains(lower_label.as_str(), k)
        },
    }
}

fn push_lan_line(
    out: &mut String,
    colors: &Colors,
    nodes: &Vec<Node>,
    edges: &Vec<Edge>,
    local_ip: &str,
    dst: &str,
    is_last: bool,
    resolve: bool,
)
    ensures
        final(out)@ == old(out)@ + lan_line(
            colors@,
            node_views(nodes@),
            edge_views(edges@),
            local_ip@,
            dst@,
            is_last,
            resolve,
        ),
{
    let node = find_node_exec(nodes, dst);
    let label = node_display(node, dst);
    let conns = fmt_conns_ex(edges, Some(local_ip), dst, resolve, colors);
    let mut line = String::new();
    push_str(&mut line, "  ");
    if is_last {
        push_str(&mut line, "└─►");
    } else {
        push_str(&mut line, "├─►");
    }
    push_str(&mut line, " ");
    push_padded(&mut line, label.as_str(), 38);
    push_str(&mut line, "  ");
    let cut = trunc(line.as_str(), 47);
    let mut whole = String::new();
    push_str(&mut whole, colors.lan_node);
    push_str(&mut whole, cut.as_str());
    push_str(&mut whole, colors.reset);
    push_str(&mut whole, conns.as_str());
    let shown = trunc(whole.as_str(), 79);
    push_str(out, shown.as_str());
    push_str(out, "\n");
}

fn push_lan_heading(out: &mut String, colors: &Colors, nodes: &Vec<Node>)
    ensures
        final(out)@ == old(out)@ + lan_heading(colors@, node_views(nodes@)),
{
    let ghost nv = node_views(nodes@);
    let mut count: usize = 0;
    let mut i: usize = 0;
    assert(nv.take(0) =~= Seq::<NodeView>::empty());
    while i < nodes.len()
        invariant
            i <= nv.len(),
            nv == node_views(nodes@),
            count == lan_count(nv.take(i as int)),
            count <= i,
        decreases nv.len() - i,
    {
        assert(nv.take(i + 1).drop_last() =~= nv.take(i as int));
        assert(nv.take(i + 1).last() == nodes@[i as int]@);
        if is_lan_ip(nodes[i].ip.as_str()) {
            count += 1;
        }
        i += 1;
    }
    assert(nv.take(nv.len() as int) =~= nv);
    push_str(out, colors.sep);
    push_str(out, "━━━ 局域网设备 (");
    push_dec(out, count as u64);
    push_str(out, ") ━━━━━━━━━━━━━━━━━━━━");
    push_str(out, colors.reset);
    push_str(out, "\n\n");
    assert(out@ =~= old(out)@ + lan_heading(colors@, nv));
}

/// The destinations shown under the local node (see `lan_shown`).
fn lan_shown_exec(graph: &Graph, local_ip: &str, kw: Option<&str>) -> (r: Vec<String>)
    ensures
        string_views(r@) == lan_shown(graph@, local_ip@, opt_view_str(kw)),
{
    let ghost g = graph@;
    let ghost ev = g.edges;
    let ghost kwv = opt_view_str(kw);
    let mut seen: Vec<String> = Vec::new();
    let mut lan_dsts: Vec<String> = Vec::new();
    let mut j: usize = 0;
    assert(ev.take(0) =~= Seq::<EdgeView>::empty());
    assert(string_views(seen@) =~= Seq::<Seq<char>>::empty());
    assert(string_views(lan_dsts@) =~= Seq::<Seq<char>>::empty());
    while j < graph.edges.len()
        invariant
            j <= ev.len(),
            g == graph@,
            ev == g.edges,
            string_views(seen@) == local_dsts(ev.take(j as int), local_ip@),
            string_views(lan_dsts@) == kw_filter(string_views(seen@), kwv, g.nodes),
            kwv == opt_view_str(kw),
        decreases ev.len() - j,
    {
        assert(ev.take(j + 1).drop_last() =~= ev.take(j as int));
        assert(ev.take(j + 1).last() == graph.edges@[j as int]@);
        let e = &graph.edges[j];
        if str_eq(e.src.as_str(), local_ip) && is_lan_ip(e.dst.as_str()) && !vec_contains_str(
            &seen,
            e.dst.as_str(),
        ) {
            let ghost sv = string_views(seen@);
            seen.push(e.dst.clone());
            assert(string_views(seen@) =~= sv.push(e.dst@));
            assert(string_views(seen@).drop_last() =~= sv);
            if kw_match_exec(kw, &graph.nodes, e.dst.as_str()) {
                let ghost lv = string_views(lan_dsts@);
                lan_dsts.push(e.dst.clone());
                assert(string_views(lan_dsts@) =~= lv.push(e.dst@));
            }
        }
        j += 1;
    }
    assert(ev.take(ev.len() as int) =~= ev);
    lan_dsts
}

fn push_local_block(out: &mut String, colors: &Colors, graph: &Graph, local: &Node, kw: Option<&str>, resolve: bool)
    ensures
        final(out)@ == old(out)@ + local_block(colors@, graph@, local@, opt_view_str(kw), resolve),
{
    let ghost g = graph@;
    let ghost l = local@;
    let mut hdr = String::new();
    push_str(&mut hdr, "[★ ");
    match &local.hostname {
        Some(h) => {
            push_str(&mut hdr, h.as_str());
            push_str(&mut hdr, "] (");
            push_str(&mut hdr, local.ip.as_str());
            push_str(&mut hdr, ")");
        },
        None => {
            push_str(&mut hdr, local.ip.as_str());
            push_str(&mut hdr, "]");
        },
    }
    assert(hdr@ =~= local_header(l));
    let cut = trunc(hdr.as_str(), 78);
    let ghost o0 = out@;
    push_str(out, "  ");
    push_str(out, colors.local);
    push_str(out, cut.as_str());
    push_str(out, colors.reset);
    push_str(out, "\n");
    let lan_dsts = lan_shown_exec(graph, local.ip.as_str(), kw);
    let ghost ds = string_views(lan_dsts@);
    let n = lan_dsts.len();
    let ghost mid = out@;
    let mut k: usize = 0;
    while k < n
        invariant
            k <= n,
            n == lan_dsts@.len(),
            ds == string_views(lan_dsts@),
            g == graph@,
            l == local@,
            out@ == mid + lan_lines(ds, k as nat, colors@, g.nodes, g.edges, l.ip, resolve),
        decreases n - k,
    {
        push_lan_line(
            out,
            colors,
            &graph.nodes,
            &graph.edges,
            local.ip.as_str(),
            lan_dsts[k].as_str(),
            k + 1 == n,
            resolve,
        );
        assert(ds[k as int] == lan_dsts@[k as int]@);
        k += 1;
    }
    push_str(out, "\n");
    assert(out@ =~= o0 + local_block(colors@, g, l, opt_view_str(kw), resolve));
}

/// Appends the local network section (see `lan_section`).
fn push_lan_section(out: &mut String, colors: &Colors, graph: &Graph, kw: Option<&str>, resolve: bool)
    ensures
        final(out)@ == old(out)@ + lan_section(colors@, graph@, opt_view_str(kw), resolve),
{
    push_lan_heading(out, colors, &graph.nodes);
    let ghost head = out@;
    match first_local_exec(&graph.nodes) {
        None => {
            assert(out@ =~= head + Seq::<char>::empty());
        },
        Some(local) => {
            push_local_block(out, colors, graph, local, kw, resolve);
        },
    }
    assert(out@ =~= old(out)@ + lan_section(colors@, graph@, opt_view_str(kw), resolve));
}

// ───────────────────────────── public section ──────────────────────────────

/// The public (not local network) destinations, in connection order.
pub open spec fn public_dsts(es: Seq<EdgeView>) -> Seq<Seq<char>>
    decreases es.len(),
{
    if es.len() == 0 {
        Seq::empty()
    } else {
        let p = public_dsts(es.drop_last());
        if !lan_ip(es.last().dst) {
            p.push(es.last().dst)
        } else {
            p
        }
    }
}

/// The distinct public destinations in ascending order.
pub open spec fn pub_ips(es: Seq<EdgeView>) -> Seq<Seq<char>> {
    sort_dedup(public_dsts(es))
}

proof fn lemma_public_dsts_members(es: Seq<EdgeView>)
    ensures
        forall|x: Seq<char>|
            #[trigger] public_dsts(es).contains(x) ==> !lan_ip(x) && exists|j: int|
                0 <= j < es.len() && (#[trigger] es[j]).dst == x,
        forall|j: int|
            0 <= j < es.len() && !lan_ip((#[trigger] es[j]).dst) ==> public_dsts(es).contains(es[j].dst),
    decreases es.len(),
{
    if es.len() > 0 {
        let p = es.drop_last();
        let d = public_dsts(p);
        lemma_public_dsts_members(p);
        assert forall|x: Seq<char>| #[trigger] public_dsts(es).contains(x) implies !lan_ip(x) && exists|j: int|
            0 <= j < es.len() && (#[trigger] es[j]).dst == x by {
            if d.contains(x) {
                let j = choose|j: int| 0 <= j < p.len() && (#[trigger] p[j]).dst == x;
                assert(es[j] == p[j]);
            } else {
                let i = choose|i: int| 0 <= i < public_dsts(es).len() && public_dsts(es)[i] == x;
                assert(i == d.len());
                assert(es[es.len() - 1].dst == x);
            }
        }
        assert forall|j: int|
            0 <= j < es.len() && !lan_ip((#[trigger] es[j]).dst) implies public_dsts(es).contains(es[j].dst) by {
            if j < p.len() {
                assert(p[j] == es[j]);
                let i = choose|i: int| 0 <= i < d.len() && d[i] == es[j].dst;
                assert(public_dsts(es)[i] == d[i]);
            } else {
                assert(public_dsts(es)[d.len() as int] == es[j].dst);
            }
        }
    }
}

/// The internet section lists the distinct destinations that are not LAN
/// addresses, in ascending order: no LAN address is listed, each listed one
/// is the destination of a connection, and each connection to a non-LAN
/// address has its destination listed.
pub proof fn law_internet_section_excludes_lan(es: Seq<EdgeView>)
    ensures
        strictly_ascending(pub_ips(es)),
        forall|x: Seq<char>|
            #[trigger] pub_ips(es).contains(x) ==> !lan_ip(x) && exists|j: int|
                0 <= j < es.len() && (#[trigger] es[j]).dst == x,
        forall|j: int|
            0 <= j < es.len() && !lan_ip((#[trigger] es[j]).dst) ==> pub_ips(es).contains(es[j].dst),
{
    lemma_sort_dedup_ascending(public_dsts(es));
    lemma_public_dsts_members(es);
    assert forall|x: Seq<char>| #[trigger] pub_ips(es).contains(x) implies !lan_ip(x) && exists|j: int|
        0 <= j < es.len() && (#[trigger] es[j]).dst == x by {
        lemma_sort_dedup_contains(public_dsts(es), x);
    }
    assert forall|j: int|
        0 <= j < es.len() && !lan_ip((#[trigger] es[j]).dst) implies pub_ips(es).contains(es[j].dst) by {
        lemma_sort_dedup_contains(public_dsts(es), es[j].dst);
    }
}

/// The host name of a node, if any.
pub open spec fn hostname_of(n: Option<NodeView>) -> Option<Seq<char>> {
    match n {
        Some(x) => x.hostname,
        None => None,
    }
}

pub open spec fn opt_views(v: Seq<Option<String>>) -> Seq<Option<Seq<char>>> {
    Seq::new(
        v.len(),
        |i: int|
            match v[i] {
                Some(s) => Some(s@),
                None => None,
            },
    )
}

/// The provider label of each public destination, given the organisation
/// that the ASN database returned for it.
pub open spec fn isp_labels(
    ips: Seq<Seq<char>>,
    ns: Seq<NodeView>,
    orgs: Seq<Option<Seq<char>>>,
) -> Seq<Seq<char>> {
    Seq::new(
        ips.len(),
        |i: int| isp_label_spec(hostname_of(find_node(ns, ips[i])), ips[i], orgs[i]),
    )
}

/// The destinations among the first `n` whose label is `k`, in order.
pub open spec fn members(ips: Seq<Seq<char>>, labels: Seq<Seq<char>>, k: Seq<char>, n: nat) -> Seq<Seq<char>>
    decreases n,
{
    if n == 0 {
        Seq::empty()
    } else {
        let p = members(ips, labels, k, (n - 1) as nat);
        if labels[n - 1] == k {
            p.push(ips[n - 1])
        } else {
            p
        }
    }
}

/// A provider group passes the (lower-case) keyword when there is none, or
/// its lower-cased label or one of its lower-cased addresses contains it.
pub open spec fn group_kept(kw: Option<Seq<char>>, k: Seq<char>, ms: Seq<Seq<char>>) -> bool {
    match kw {
        None => true,
        Some(w) => contains_seq(spec_to_lowercase(k), w) || exists|i: int|
            0 <= i < ms.len() && contains_seq(spec_to_lowercase(#[trigger] ms[i]), w),
    }
}

/// The provider groups that pass the keyword.
pub open spec fn kept_groups(
    gs: Seq<Seq<char>>,
    ips: Seq<Seq<char>>,
    labels: Seq<Seq<char>>,
    kw: Option<Seq<char>>,
) -> Seq<Seq<char>>
    decreases gs.len(),
{
    if gs.len() == 0 {
        Seq::empty()
    } else {
        let p = kept_groups(gs.drop_last(), ips, labels, kw);
        if group_kept(kw, gs.last(), members(ips, labels, gs.last(), ips.len())) {
            p.push(gs.last())
        } else {
            p
        }
    }
}

/// The number of destinations among the first `n` in the groups `ks`.
pub open spec fn members_total(ks: Seq<Seq<char>>, ips: Seq<Seq<char>>, labels: Seq<Seq<char>>, n: nat) -> nat
    decreases ks.len(),
{
    if ks.len() == 0 {
        0
    } else {
        members_total(ks.drop_last(), ips, labels, n) + members(ips, labels, ks.last(), n).len()
    }
}

/// A public destination: the connector and padded display name, then all its
/// connections, cut to 79 columns.
pub open spec fn pub_line(
    c: Palette,
    ns: Seq<NodeView>,
    es: Seq<EdgeView>,
    ip: Seq<char>,
    is_last: bool,
    resolve: bool,
) -> Seq<char> {
    trunc_text(
        "  "@ + connector(is_last) + " "@ + pad_right(display_name(find_node(ns, ip), ip), 38) + "  "@
            + conns_text(es, None, ip, resolve, c),
        79,
    ) + "\n"@
}

pub open spec fn pub_lines(
    ms: Seq<Seq<char>>,
    k: nat,
    cap: nat,
    hidden: nat,
    c: Palette,
    ns: Seq<NodeView>,
    es: Seq<EdgeView>,
    resolve: bool,
) -> Seq<char>
    decreases k,
{
    if k == 0 {
        Seq::empty()
    } else {
        pub_lines(ms, (k - 1) as nat, cap, hidden, c, ns, es, resolve) + pub_line(
            c,
            ns,
            es,
            ms[k - 1],
            k == cap && hidden == 0,
            resolve,
        )
    }
}

/// How many destinations a group shows: all, or at most ten.
pub open spec fn group_cap(all: bool, n: nat) -> nat {
    if all || n < 10 {
        n
    } else {
        10
    }
}

pub open spec fn hidden_line(c: Palette, hidden: nat) -> Seq<char> {
    "  "@ + c.sep + "└─► … 还有 "@ + dec(hidden) + " 条，使用 --all-connections 显示全部"@ + c.reset
        + "\n"@
}

/// A provider group: its label, its shown destinations, and a line counting
/// the hidden ones if any.
pub open spec fn group_block(
    k: Seq<char>,
    ms: Seq<Seq<char>>,
    all: bool,
    c: Palette,
    ns: Seq<NodeView>,
    es: Seq<EdgeView>,
    resolve: bool,
) -> Seq<char> {
    let cap = group_cap(all, ms.len());
    let hidden = (ms.len() - cap) as nat;
    group_head(c, k) + pub_lines(ms, cap, cap, hidden, c, ns, es, resolve) + (
    if hidden > 0 {
        hidden_line(c, hidden)
    } else {
        Seq::empty()
    }) + "\n"@
}

pub open spec fn group_blocks(
    ks: Seq<Seq<char>>,
    n: nat,
    ips: Seq<Seq<char>>,
    labels: Seq<Seq<char>>,
    all: bool,
    c: Palette,
    ns: Seq<NodeView>,
    es: Seq<EdgeView>,
    resolve: bool,
) -> Seq<char>
    decreases n,
{
    if n == 0 || n > ks.len() {
        Seq::empty()
    } else {
        group_blocks(ks, (n - 1) as nat, ips, labels, all, c, ns, es, resolve) + group_block(
            ks[n - 1],
            members(ips, labels, ks[n - 1], ips.len()),
            all,
            c,
            ns,
            es,
            resolve,
        )
    }
}

pub open spec fn pub_heading(c: Palette, total: nat) -> Seq<char> {
    c.sep + "━━━ 公网连接 ("@ + dec(total) + ") ━━━━━━━━━━━━━━━━━━━━━"@ + c.reset + "\n\n"@
}

/// The public section: the public destinations grouped by provider (groups
/// in ascending label order, destinations in ascending address order), the
/// groups that pass the keyword, under a heading with their total; nothing
/// when there is no public destination or no group passes.
pub open spec fn pub_section(
    c: Palette,
    g: GraphView,
    kw: Option<Seq<char>>,
    all: bool,
    resolve: bool,
    orgs: Seq<Option<Seq<char>>>,
) -> Seq<char> {
    let ips = pub_ips(g.edges);
    let labels = isp_labels(ips, g.nodes, orgs);
    let ks = kept_groups(sort_dedup(labels), ips, labels, kw);
    if ips.len() == 0 || ks.len() == 0 {
        Seq::empty()
    } else {
        pub_heading(c, members_total(ks, ips, labels, ips.len())) + group_blocks(
            ks,
            ks.len(),
            ips,
            labels,
            all,
            c,
            g.nodes,
            g.edges,
            resolve,
        )
    }
}

// ─── counting group members

pub open spec fn no_dup(s: Seq<Seq<char>>) -> bool {
    forall|a: int, b: int| 0 <= a < b < s.len() ==> #[trigger] s[a] != #[trigger] s[b]
}

proof fn lemma_members_len(ips: Seq<Seq<char>>, labels: Seq<Seq<char>>, k: Seq<char>, n: nat)
    ensures
        members(ips, labels, k, n).len() <= n,
    decreases n,
{
    if n > 0 {
        lemma_members_len(ips, labels, k, (n - 1) as nat);
    }
}

proof fn lemma_members_total_zero(ks: Seq<Seq<char>>, ips: Seq<Seq<char>>, labels: Seq<Seq<char>>)
    ensures
        members_total(ks, ips, labels, 0) == 0,
    decreases ks.len(),
{
    if ks.len() > 0 {
        lemma_members_total_zero(ks.drop_last(), ips, labels);
    }
}

proof fn lemma_members_total_step(ks: Seq<Seq<char>>, ips: Seq<Seq<char>>, labels: Seq<Seq<char>>, n: nat)
    requires
        n > 0,
        no_dup(ks),
    ensures
        members_total(ks, ips, labels, n) == members_total(ks, ips, labels, (n - 1) as nat) + if ks.contains(
            labels[n - 1],
        ) {
            1nat
        } else {
            0
        },
    decreases ks.len(),
{
    if ks.len() > 0 {
        let d = ks.drop_last();
        assert forall|a: int, b: int| 0 <= a < b < d.len() implies #[trigger] d[a] != #[trigger] d[b] by {
            assert(ks[a] != ks[b]);
        }
        lemma_members_total_step(d, ips, labels, n);
        let x = labels[n - 1];
        if d.contains(x) {
            let q = choose|q: int| 0 <= q < d.len() && d[q] == x;
            assert(ks[q] == x);
            assert(ks.last() != x) by {
                assert(ks[q] != ks[ks.len() - 1]);
            }
        }
        if ks.contains(x) && !d.contains(x) {
            let q = choose|q: int| 0 <= q < ks.len() && ks[q] == x;
            if q < ks.len() - 1 {
                assert(d[q] == x);
            }
        }
        if ks.last() == x {
            assert(ks[ks.len() - 1] == x);
        }
    }
}

proof fn lemma_members_total_bound(ks: Seq<Seq<char>>, ips: Seq<Seq<char>>, labels: Seq<Seq<char>>, n: nat)
    requires
        no_dup(ks),
    ensures
        members_total(ks, ips, labels, n) <= n,
    decreases n,
{
    if n == 0 {
        lemma_members_total_zero(ks, ips, labels);
    } else {
        lemma_members_total_step(ks, ips, labels, n);
        lemma_members_total_bound(ks, ips, labels, (n - 1) as nat);
    }
}

proof fn lemma_kept_groups_sub(gs: Seq<Seq<char>>, ips: Seq<Seq<char>>, labels: Seq<Seq<char>>, kw: Option<Seq<char>>)
    requires
        no_dup(gs),
    ensures
        no_dup(kept_groups(gs, ips, labels, kw)),
        forall|x: Seq<char>| #[trigger] kept_groups(gs, ips, labels, kw).contains(x) ==> gs.contains(x),
    decreases gs.len(),
{
    if gs.len() > 0 {
        let d = gs.drop_last();
        assert forall|a: int, b: int| 0 <= a < b < d.len() implies #[trigger] d[a] != #[trigger] d[b] by {
            assert(gs[a] != gs[b]);
        }
        lemma_kept_groups_sub(d, ips, labels, kw);
        let p = kept_groups(d, ips, labels, kw);
        let r = kept_groups(gs, ips, labels, kw);
        assert forall|x: Seq<char>| #[trigger] r.contains(x) implies gs.contains(x) by {
            let q = choose|q: int| 0 <= q < r.len() && r[q] == x;
            if q < p.len() {
                assert(p[q] == x);
                assert(p.contains(x));
                let m = choose|m: int| 0 <= m < d.len() && d[m] == x;
                assert(gs[m] == x);
            } else {
                assert(gs[gs.len() - 1] == x);
            }
        }
        if r.len() > p.len() {
            assert forall|a: int, b: int| 0 <= a < b < r.len() implies #[trigger] r[a] != #[trigger] r[b] by {
                if b == r.len() - 1 {
                    assert(r[b] == gs.last());
                    assert(p.contains(r[a])) by {
                        assert(p[a] == r[a]);
                    }
                    let m = choose|m: int| 0 <= m < d.len() && d[m] == r[a];
                    assert(gs[m] != gs[gs.len() - 1]);
                } else {
                    assert(p[a] == r[a] && p[b] == r[b]);
                }
            }
        }
    }
}

proof fn lemma_ascending_no_dup(s: Seq<Seq<char>>)
    requires
        strictly_ascending(s),
    ensures
        no_dup(s),
{
    assert forall|a: int, b: int| 0 <= a < b < s.len() implies #[trigger] s[a] != #[trigger] s[b] by {
        lemma_seq_lt_irreflexive(s[a]);
    }
}

// ─── building the public section

/// The distinct public destinations in ascending order.
pub fn public_ips(edges: &Vec<Edge>) -> (r: Vec<String>)
    ensures
        string_views(r@) == pub_ips(edge_views(edges@)),
{
    let ghost ev = edge_views(edges@);
    let mut v: Vec<String> = Vec::new();
    let mut i: usize = 0;
    assert(ev.take(0) =~= Seq::<EdgeView>::empty());
    assert(string_views(v@) =~= Seq::<Seq<char>>::empty());
    while i < edges.len()
        invariant
            i <= ev.len(),
            ev == edge_views(edges@),
            string_views(v@) == public_dsts(ev.take(i as int)),
        decreases ev.len() - i,
    {
        assert(ev.take(i + 1).drop_last() =~= ev.take(i as int));
        assert(ev.take(i + 1).last() == edges@[i as int]@);
        if !is_lan_ip(edges[i].dst.as_str()) {
            let ghost before = string_views(v@);
            v.push(edges[i].dst.clone());
            assert(string_views(v@) =~= before.push(edges@[i as int].dst@));
        }
        i += 1;
    }
    assert(ev.take(ev.len() as int) =~= ev);
    sort_dedup_strings(&v)
}

fn members_exec(ips: &Vec<String>, labels: &Vec<String>, k: &str) -> (r: Vec<String>)
    requires
        ips@.len() == labels@.len(),
    ensures
        string_views(r@) == members(string_views(ips@), string_views(labels@), k@, ips@.len() as nat),
{
    let ghost iv = string_views(ips@);
    let ghost lv = string_views(labels@);
    let mut r: Vec<String> = Vec::new();
    let mut i: usize = 0;
    assert(string_views(r@) =~= Seq::<Seq<char>>::empty());
    while i < ips.len()
        invariant
            i <= ips@.len(),
            ips@.len() == labels@.len(),
            iv == string_views(ips@),
            lv == string_views(labels@),
            string_views(r@) == members(iv, lv, k@, i as nat),
        decreases ips@.len() - i,
    {
        if str_eq(labels[i].as_str(), k) {
            let ghost before = string_views(r@);
            r.push(ips[i].clone());
            assert(string_views(r@) =~= before.push(iv[i as int]));
        }
        i += 1;
    }
    r
}

fn group_kept_exec(kw: Option<&str>, k: &str, ms: &Vec<String>) -> (r: bool)
    ensures
        r == group_kept(opt_view_str(kw), k@, string_views(ms@)),
{
    match kw {
        None => true,
        Some(w) => {
            let lk = to_lowercase(k);
            if str_contains(lk.as_str(), w) {
                return true;
            }
            let ghost mv = string_views(ms@);
            let mut i: usize = 0;
            while i < ms.len()
                invariant
                    i <= ms@.len(),
                    mv == string_views(ms@),
                    opt_view_str(kw) == Some(w@),
                    forall|m: int| 0 <= m < i ==> !contains_seq(spec_to_lowercase(#[trigger] mv[m]), w@),
                decreases ms@.len() - i,
            {
                let l = to_lowercase(ms[i].as_str());
                assert(mv[i as int] == ms@[i as int]@);
                if str_contains(l.as_str(), w) {
                    assert(contains_seq(spec_to_lowercase(mv[i as int]), w@));
                    return true;
                }
                i += 1;
            }
            false
        },
    }
}

fn push_pub_line(out: &mut String, colors: &Colors, nodes: &Vec<Node>, edges: &Vec<Edge>, ip: &str, is_last: bool, resolve: bool)
    ensures
        final(out)@ == old(out)@ + pub_line(colors@, node_views(nodes@), edge_views(edges@), ip@, is_last, resolve),
{
    let node = find_node_exec(nodes, ip);
    let label = node_display(node, ip);
    let conns = fmt_conns_ex(edges, None, ip, resolve, colors);
    let mut line = String::new();
    push_str(&mut line, "  ");
    if is_last {
        push_str(&mut line, "└─►");
    } else {
        push_str(&mut line, "├─►");
    }
    push_str(&mut line, " ");
    push_padded(&mut line, label.as_str(), 38);
    push_str(&mut line, "  ");
    push_str(&mut line, conns.as_str());
    let cut = trunc(line.as_str(), 79);
    push_str(out, cut.as_str());
    push_str(out, "\n");
}

/// A provider's label, cut to 78 columns.
pub open spec fn group_head(c: Palette, k: Seq<char>) -> Seq<char> {
    "  "@ + c.isp + trunc_text(k, 78) + c.reset + "\n"@
}

fn push_group_head(out: &mut String, colors: &Colors, k: &str)
    ensures
        final(out)@ == old(out)@ + group_head(colors@, k@),
{
    let label = trunc(k, 78);
    push_str(out, "  ");
    push_str(out, colors.isp);
    push_str(out, label.as_str());
    push_str(out, colors.reset);
    push_str(out, "\n");
    assert(out@ =~= old(out)@ + group_head(colors@, k@));
}

fn push_hidden_line(out: &mut String, colors: &Colors, hidden: usize)
    ensures
        final(out)@ == old(out)@ + hidden_line(colors@, hidden as nat),
{
    push_str(out, "  ");
    push_str(out, colors.sep);
    push_str(out, "└─► … 还有 ");
    push_dec(out, hidden as u64);
    push_str(out, " 条，使用 --all-connections 显示全部");
    push_str(out, colors.reset);
    push_str(out, "\n");
    assert(out@ =~= old(out)@ + hidden_line(colors@, hidden as nat));
}

fn push_group_block(
    out: &mut String,
    colors: &Colors,
    nodes: &Vec<Node>,
    edges: &Vec<Edge>,
    k: &str,
    ms: &Vec<String>,
    all: bool,
    resolve: bool,
)
    ensures
        final(out)@ == old(out)@ + group_block(
            k@,
            string_views(ms@),
            all,
            colors@,
            node_views(nodes@),
            edge_views(edges@),
            resolve,
        ),
{
    let ghost mv = string_views(ms@);
    let ghost nv = node_views(nodes@);
    let ghost ev = edge_views(edges@);
    let len = ms.len();
    let cap: usize = if all || len < 10 {
        len
    } else {
        10
    };
    let hidden = len - cap;
    let ghost o0 = out@;
    push_group_head(out, colors, k);
    let ghost mid = out@;
    let mut i: usize = 0;
    while i < cap
        invariant
            i <= cap <= len,
            len == ms@.len(),
            hidden == len - cap,
            mv == string_views(ms@),
            nv == node_views(nodes@),
            ev == edge_views(edges@),
            out@ == mid + pub_lines(mv, i as nat, cap as nat, hidden as nat, colors@, nv, ev, resolve),
        decreases cap - i,
    {
        push_pub_line(out, colors, nodes, edges, ms[i].as_str(), i + 1 == cap && hidden == 0, resolve);
        assert(mv[i as int] == ms@[i as int]@);
        i += 1;
    }
    let ghost lines = pub_lines(mv, cap as nat, cap as nat, hidden as nat, colors@, nv, ev, resolve);
    let ghost mid2 = out@;
    if hidden > 0 {
        push_hidden_line(out, colors, hidden);
    }
    let ghost tail: Seq<char> = if hidden > 0 {
        hidden_line(colors@, hidden as nat)
    } else {
        Seq::empty()
    };
    assert(out@ =~= mid2 + tail);
    push_str(out, "\n");
    assert(group_cap(all, mv.len()) == cap);
    assert(out@ =~= o0 + (group_head(colors@, k@) + lines + tail + "\n"@));
}

/// Appends the public section (see `pub_section`); `orgs` holds the ASN
/// database's organisation for each public destination.
fn push_pub_section(
    out: &mut String,
    colors: &Colors,
    graph: &Graph,
    kw: Option<&str>,
    all: bool,
    resolve: bool,
    orgs: &Vec<Option<String>>,
)
    requires
        orgs@.len() == pub_ips(graph@.edges).len(),
    ensures
        final(out)@ == old(out)@ + pub_section(colors@, graph@, opt_view_str(kw), all, resolve, opt_views(orgs@)),
{
    let ghost g = graph@;
    let ghost ov = opt_views(orgs@);
    let ghost kwv = opt_view_str(kw);
    let ips = public_ips(&graph.edges);
    let ghost iv = string_views(ips@);
    let ghost lbl = isp_labels(iv, g.nodes, ov);
    if ips.len() == 0 {
        assert(out@ =~= old(out)@ + pub_section(colors@, g, kwv, all, resolve, ov));
        return;
    }
    let mut labels: Vec<String> = Vec::new();
    let mut i: usize = 0;
    assert(string_views(labels@) =~= lbl.take(0));
    while i < ips.len()
        invariant
            i <= ips@.len(),
            ips@.len() == orgs@.len(),
            iv == string_views(ips@),
            ov == opt_views(orgs@),
            g == graph@,
            lbl == isp_labels(iv, g.nodes, ov),
            string_views(labels@) == lbl.take(i as int),
        decreases ips@.len() - i,
    {
        let node = find_node_exec(&graph.nodes, ips[i].as_str());
        let h: Option<&str> = match node {
            Some(n) => match &n.hostname {
                Some(x) => Some(x.as_str()),
                None => None,
            },
            None => None,
        };
        let org: Option<String> = match &orgs[i] {
            Some(o) => Some(o.clone()),
            None => None,
        };
        let l = isp_label(h, ips[i].as_str(), org);
        assert(l@ == lbl[i as int]);
        let ghost before = string_views(labels@);
        labels.push(l);
        assert(string_views(labels@) =~= before.push(lbl[i as int]));
        assert(lbl.take(i + 1) =~= lbl.take(i as int).push(lbl[i as int]));
        i += 1;
    }
    assert(lbl.take(ips@.len() as int) =~= lbl);
    let groups = sort_dedup_strings(&labels);
    let ghost gv = string_views(groups@);
    proof {
        lemma_sort_dedup_ascending(lbl);
        lemma_ascending_no_dup(gv);
    }
    let mut kept: Vec<String> = Vec::new();
    let mut kept_members: Vec<Vec<String>> = Vec::new();
    let mut total: usize = 0;
    let n_ips = ips.len();
    let mut j: usize = 0;
    assert(gv.take(0) =~= Seq::<Seq<char>>::empty());
    assert(string_views(kept@) =~= Seq::<Seq<char>>::empty());
    while j < groups.len()
        invariant
            j <= groups@.len(),
            gv == string_views(groups@),
            no_dup(gv),
            iv == string_views(ips@),
            iv.len() == n_ips,
            lbl == string_views(labels@),
            ips@.len() == labels@.len(),
            kwv == opt_view_str(kw),
            string_views(kept@) == kept_groups(gv.take(j as int), iv, lbl, kwv),
            kept_members@.len() == kept@.len(),
            forall|m: int| 0 <= m < kept@.len() ==> string_views(#[trigger] kept_members@[m]@) == members(iv, lbl, kept@[m]@, iv.len()),
            total == members_total(string_views(kept@), iv, lbl, iv.len()),
        decreases groups@.len() - j,
    {
        assert(gv.take(j + 1).drop_last() =~= gv.take(j as int));
        assert(gv.take(j + 1).last() == groups@[j as int]@);
        let ms = members_exec(&ips, &labels, groups[j].as_str());
        if group_kept_exec(kw, groups[j].as_str(), &ms) {
            proof {
                let nk = string_views(kept@).push(groups@[j as int]@);
                assert(nk =~= kept_groups(gv.take(j + 1), iv, lbl, kwv));
                assert forall|a: int, b: int| 0 <= a < b < gv.take(j + 1).len() implies #[trigger] gv.take(j + 1)[a] != #[trigger] gv.take(j + 1)[b] by {
                    assert(gv[a] != gv[b]);
                }
                lemma_kept_groups_sub(gv.take(j + 1), iv, lbl, kwv);
                lemma_members_total_bound(nk, iv, lbl, iv.len());
                assert(nk.drop_last() =~= string_views(kept@));
                assert(string_views(ms@).len() == ms@.len());
                assert(members_total(nk, iv, lbl, iv.len()) == total + ms@.len());
            }
            let ghost before = string_views(kept@);
            total = total + ms.len();
            kept.push(groups[j].clone());
            kept_members.push(ms);
            assert(string_views(kept@) =~= before.push(groups@[j as int]@));
        }
        j += 1;
    }
    assert(gv.take(groups@.len() as int) =~= gv);
    let ghost kv = string_views(kept@);
    if kept.len() == 0 {
        assert(out@ =~= old(out)@ + pub_section(colors@, g, kwv, all, resolve, ov));
        return;
    }
    let ghost o0 = out@;
    push_str(out, colors.sep);
    push_str(out, "━━━ 公网连接 (");
    push_dec(out, total as u64);
    push_str(out, ") ━━━━━━━━━━━━━━━━━━━━━");
    push_str(out, colors.reset);
    push_str(out, "\n\n");
    assert(out@ =~= o0 + pub_heading(colors@, members_total(kv, iv, lbl, iv.len())));
    let ghost mid = out@;
    let mut k: usize = 0;
    while k < kept.len()
        invariant
            k <= kept@.len(),
            kv == string_views(kept@),
            kept_members@.len() == kept@.len(),
            forall|m: int| 0 <= m < kept@.len() ==> string_views(#[trigger] kept_members@[m]@) == members(iv, lbl, kept@[m]@, iv.len()),
            g == graph@,
            out@ == mid + group_blocks(kv, k as nat, iv, lbl, all, colors@, g.nodes, g.edges, resolve),
        decreases kept@.len() - k,
    {
        assert(string_views(kept_members@[k as int]@) == members(iv, lbl, kept@[k as int]@, iv.len()));
        assert(kv[k as int] == kept@[k as int]@);
        push_group_block(out, colors, &graph.nodes, &graph.edges, kept[k].as_str(), &kept_members[k], all, resolve);
        k += 1;
    }
    assert(out@ =~= old(out)@ + pub_section(colors@, g, kwv, all, resolve, ov));
}

// ───────────────────────────── the whole overview ──────────────────────────

pub open spec fn opt_string_view(o: Option<String>) -> Option<Seq<char>> {
    match o {
        Some(s) => Some(s@),
        None => None,
    }
}

/// The whole ASCII overview: title box, local network section, public
/// section and summary; `filter` is matched lower-cased, and `orgs` holds
/// the ASN database's organisation for each public destination.
pub open spec fn ascii_text(
    g: GraphView,
    use_color: bool,
    resolve: bool,
    filter: Option<Seq<char>>,
    all: bool,
    orgs: Seq<Option<Seq<char>>>,
) -> Seq<char> {
    let c = palette(use_color);
    let kw = match filter {
        Some(f) => Some(spec_to_lowercase(f)),
        None => None,
    };
    title_text(c, g.captured_at) + lan_section(c, g, kw, resolve) + pub_section(
        c,
        g,
        kw,
        all,
        resolve,
        orgs,
    ) + footer_text(c, g.summary, g.edges, resolve)
}

/// The ASCII overview of a graph (see `ascii_text`), given the ASN
/// database's organisation for each public destination (`orgs`, in the
/// order of `public_ips`).
pub fn build_ascii_text(
    graph: &Graph,
    use_color: bool,
    resolve_ports: bool,
    filter: &Option<String>,
    all_connections: bool,
    orgs: &Vec<Option<String>>,
) -> (r: String)
    requires
        cut16_ok(graph@.captured_at),
        ports_fit(graph@.edges),
        orgs@.len() == pub_ips(graph@.edges).len(),
    ensures
        r@ == ascii_text(
            graph@,
            use_color,
            resolve_ports,
            opt_string_view(*filter),
            all_connections,
            opt_views(orgs@),
        ),
{
    let colors = Colors::new(use_color);
    let lowered: Option<String> = match filter {
        Some(f) => Some(to_lowercase(f.as_str())),
        None => None,
    };
    let kw: Option<&str> = match &lowered {
        Some(l) => Some(l.as_str()),
        None => None,
    };
    let mut out = String::new();
    push_title(&mut out, &colors, graph.captured_at.as_str());
    push_lan_section(&mut out, &colors, graph, kw, resolve_ports);
    push_pub_section(&mut out, &colors, graph, kw, all_connections, resolve_ports, orgs);
    push_footer(&mut out, &colors, &graph.summary, &graph.edges, resolve_ports);
    assert(out@ =~= ascii_text(
        graph@,
        use_color,
        resolve_ports,
        opt_string_view(*filter),
        all_connections,
        opt_views(orgs@),
    ));
    out
}

// ───────────────────────────── line widths ─────────────────────────────────

/// An ANSI escape code: ESC, then characters that are not ASCII letters,
/// then the letter that ends it.
pub open spec fn esc_code(e: Seq<char>) -> bool {
    &&& e.len() >= 2
    &&& e[0] == '\x1b'
    &&& is_ascii_alpha(e.last())
    &&& forall|k: int| 0 < k < e.len() - 1 ==> !is_ascii_alpha(#[trigger] e[k])
}

/// A colour of the palette: nothing, or one escape code.
pub open spec fn colour_ok(x: Seq<char>) -> bool {
    x.len() == 0 || esc_code(x)
}

proof fn lemma_code_rest(u: Seq<char>, t: Seq<char>)
    requires
        u.len() >= 1,
        is_ascii_alpha(u.last()),
        forall|k: int| 0 <= k < u.len() - 1 ==> !is_ascii_alpha(#[trigger] u[k]),
    ensures
        shown_width(u + t, true) == shown_width(t, false),
    decreases u.len(),
{
    let w = u + t;
    assert(w[0] == u[0]);
    assert(w.drop_first() =~= u.drop_first() + t);
    if u.len() == 1 {
        assert(u.drop_first() + t =~= t);
    } else {
        let d = u.drop_first();
        assert(d.last() == u.last());
        assert forall|k: int| 0 <= k < d.len() - 1 implies !is_ascii_alpha(#[trigger] d[k]) by {
            assert(d[k] == u[k + 1]);
        }
        lemma_code_rest(d, t);
    }
}

/// An escape code in front of a text takes no columns.
proof fn lemma_code_prefix(e: Seq<char>, t: Seq<char>, s: bool)
    requires
        esc_code(e),
    ensures
        shown_width(e + t, s) == shown_width(t, false),
{
    let w = e + t;
    assert(w[0] == '\x1b');
    assert(w.drop_first() =~= e.drop_first() + t);
    let d = e.drop_first();
    assert(d.last() == e.last());
    assert forall|k: int| 0 <= k < d.len() - 1 implies !is_ascii_alpha(#[trigger] d[k]) by {
        assert(d[k] == e[k + 1]);
    }
    lemma_code_rest(d, t);
}

/// An escape code after a text takes no columns.
proof fn lemma_code_suffix(a: Seq<char>, e: Seq<char>, s: bool)
    requires
        esc_code(e),
    ensures
        shown_width(a + e, s) == shown_width(a, s),
    decreases a.len(),
{
    if a.len() == 0 {
        assert(a + e =~= e);
        assert(e + Seq::<char>::empty() =~= e);
        lemma_code_prefix(e, Seq::<char>::empty(), s);
    } else {
        let w = a + e;
        assert(w[0] == a[0]);
        assert(w.drop_first() =~= a.drop_first() + e);
        lemma_code_suffix(a.drop_first(), e, true);
        lemma_code_suffix(a.drop_first(), e, false);
    }
}

/// A colour around a text takes no columns.
proof fn lemma_coloured(x: Seq<char>, t: Seq<char>, y: Seq<char>)
    requires
        colour_ok(x),
        colour_ok(y),
    ensures
        shown_width(x + t + y, false) == shown_width(t, false),
{
    if y.len() == 0 {
        assert(t + y =~= t);
    } else {
        lemma_code_suffix(t, y, false);
    }
    if x.len() == 0 {
        assert(x + t + y =~= t + y);
    } else {
        assert(x + t + y =~= x + (t + y));
        lemma_code_prefix(x, t + y, false);
    }
}

/// Two spaces in front of a text take two columns.
proof fn lemma_two_spaces(t: Seq<char>)
    ensures
        shown_width("  "@ + t, false) == 2 + shown_width(t, false),
{
    reveal_strlit("  ");
    let w = "  "@ + t;
    let w1 = w.drop_first();
    assert(w[0] == ' ' && w1[0] == ' ');
    assert(w1.drop_first() =~= t);
    assert((' ' as u32) == 0x20);
    assert(char_width(' ') == 1);
    assert(w.len() > 0 && w1.len() > 0);
    assert(shown_width(w1, false) == 1 + shown_width(t, false));
    assert(shown_width(w, false) == 1 + shown_width(w1, false));
}

/// Both palettes hold colours only.
proof fn lemma_palette_colours(enabled: bool)
    ensures
        colour_ok(palette(enabled).reset),
        colour_ok(palette(enabled).local),
        colour_ok(palette(enabled).lan_node),
        colour_ok(palette(enabled).isp),
        colour_ok(palette(enabled).sep),
{
    reveal_strlit("");
    reveal_strlit("\x1b[0m");
    reveal_strlit("\x1b[1;94m");
    reveal_strlit("\x1b[32m");
    reveal_strlit("\x1b[1;33m");
    reveal_strlit("\x1b[90m");
}

/// The lines of the overview that hold names and connections stay within
/// 80 columns (escape codes take none, the newline is not counted): a local
/// network line and an internet line take at most 79, the local node's line
/// and a provider's label line at most 80.
pub proof fn law_overview_lines_within_80(
    enabled: bool,
    ns: Seq<NodeView>,
    es: Seq<EdgeView>,
    local_ip: Seq<char>,
    ip: Seq<char>,
    is_last: bool,
    resolve: bool,
    l: NodeView,
    k: Seq<char>,
)
    ensures
        ({
            let c = palette(enabled);
            let a = lan_line(c, ns, es, local_ip, ip, is_last, resolve);
            let b = pub_line(c, ns, es, ip, is_last, resolve);
            let h = group_head(c, k);
            let m = local_line(c, l);
            &&& a.last() == '\n' && shown_width(a.drop_last(), false) <= 79
            &&& b.last() == '\n' && shown_width(b.drop_last(), false) <= 79
            &&& h.last() == '\n' && shown_width(h.drop_last(), false) <= 80
            &&& m.last() == '\n' && shown_width(m.drop_last(), false) <= 80
        }),
{
    let c = palette(enabled);
    reveal_strlit("\n");
    lemma_palette_colours(enabled);
    let ta = trunc_text(
        c.lan_node + trunc_text(
            "  "@ + connector(is_last) + " "@ + pad_right(display_name(find_node(ns, ip), ip), 38)
                + "  "@,
            47,
        ) + c.reset + conns_text(es, Some(local_ip), ip, resolve, c),
        79,
    );
    law_trunc_within_limit(
        c.lan_node + trunc_text(
            "  "@ + connector(is_last) + " "@ + pad_right(display_name(find_node(ns, ip), ip), 38)
                + "  "@,
            47,
        ) + c.reset + conns_text(es, Some(local_ip), ip, resolve, c),
        79,
    );
    assert((ta + "\n"@).drop_last() =~= ta);
    assert(lan_line(c, ns, es, local_ip, ip, is_last, resolve) == ta + "\n"@);
    let tb = trunc_text(
        "  "@ + connector(is_last) + " "@ + pad_right(display_name(find_node(ns, ip), ip), 38) + "  "@
            + conns_text(es, None, ip, resolve, c),
        79,
    );
    law_trunc_within_limit(
        "  "@ + connector(is_last) + " "@ + pad_right(display_name(find_node(ns, ip), ip), 38) + "  "@
            + conns_text(es, None, ip, resolve, c),
        79,
    );
    assert((tb + "\n"@).drop_last() =~= tb);
    assert(pub_line(c, ns, es, ip, is_last, resolve) == tb + "\n"@);
    let tk = trunc_text(k, 78);
    law_trunc_within_limit(k, 78);
    lemma_coloured(c.isp, tk, c.reset);
    assert("  "@ + c.isp + tk + c.reset + "\n"@ =~= ("  "@ + (c.isp + tk + c.reset)).push('\n'));
    lemma_two_spaces(c.isp + tk + c.reset);
    assert(group_head(c, k) == ("  "@ + (c.isp + tk + c.reset)).push('\n'));
    assert(group_head(c, k).drop_last() =~= "  "@ + (c.isp + tk + c.reset));
    let tl = trunc_text(local_header(l), 78);
    law_trunc_within_limit(local_header(l), 78);
    lemma_coloured(c.local, tl, c.reset);
    assert("  "@ + c.local + tl + c.reset + "\n"@ =~= ("  "@ + (c.local + tl + c.reset)).push('\n'));
    lemma_two_spaces(c.local + tl + c.reset);
    assert(local_line(c, l) == ("  "@ + (c.local + tl + c.reset)).push('\n'));
    assert(local_line(c, l).drop_last() =~= "  "@ + (c.local + tl + c.reset));
}


proof fn lemma_pub_lines_prefix(
    ms: Seq<Seq<char>>,
    m: int,
    k: nat,
    cap: nat,
    hidden: nat,
    c: Palette,
    ns: Seq<NodeView>,
    es: Seq<EdgeView>,
    resolve: bool,
)
    requires
        k <= m <= ms.len(),
    ensures
        pub_lines(ms, k, cap, hidden, c, ns, es, resolve) == pub_lines(
            ms.take(m),
            k,
            cap,
            hidden,
            c,
            ns,
            es,
            resolve,
        ),
    decreases k,
{
    if k > 0 {
        lemma_pub_lines_prefix(ms, m, (k - 1) as nat, cap, hidden, c, ns, es, resolve);
        assert(ms.take(m)[k - 1] == ms[k - 1]);
    }
}

/// A provider group lists at most ten of its destinations, the first ten,
/// followed by the line counting the others exactly when there are more
/// than ten; with `--all-connections` it lists them all and no such line.
pub proof fn law_group_shows_at_most_ten(
    k: Seq<char>,
    ms: Seq<Seq<char>>,
    all: bool,
    c: Palette,
    ns: Seq<NodeView>,
    es: Seq<EdgeView>,
    resolve: bool,
)
    ensures
        ({
            let cap = group_cap(all, ms.len());
            let hidden = (ms.len() - cap) as nat;
            &&& all ==> cap == ms.len()
            &&& !all ==> cap == if ms.len() < 10 { ms.len() } else { 10 }
            &&& group_block(k, ms, all, c, ns, es, resolve) == group_head(c, k) + pub_lines(
                ms.take(cap as int),
                cap,
                cap,
                hidden,
                c,
                ns,
                es,
                resolve,
            ) + (if !all && ms.len() > 10 {
                hidden_line(c, (ms.len() - 10) as nat)
            } else {
                Seq::empty()
            }) + "\n"@
        }),
{
    let cap = group_cap(all, ms.len());
    let hidden = (ms.len() - cap) as nat;
    lemma_pub_lines_prefix(ms, cap as int, cap, cap, hidden, c, ns, es, resolve);
}


proof fn lemma_members_has(ips: Seq<Seq<char>>, labels: Seq<Seq<char>>, k: Seq<char>, n: nat, w: Seq<char>)
    requires
        n <= ips.len(),
        n <= labels.len(),
    ensures
        (exists|i: int|
            0 <= i < members(ips, labels, k, n).len() && contains_seq(
                spec_to_lowercase(#[trigger] members(ips, labels, k, n)[i]),
                w,
            )) == (exists|j: int|
            0 <= j < n && labels[j] == k && contains_seq(spec_to_lowercase(#[trigger] ips[j]), w)),
    decreases n,
{
    if n > 0 {
        let p = members(ips, labels, k, (n - 1) as nat);
        let m = members(ips, labels, k, n);
        lemma_members_has(ips, labels, k, (n - 1) as nat, w);
        if exists|i: int| 0 <= i < m.len() && contains_seq(spec_to_lowercase(#[trigger] m[i]), w) {
            let i = choose|i: int| 0 <= i < m.len() && contains_seq(spec_to_lowercase(#[trigger] m[i]), w);
            if i < p.len() {
                assert(m[i] == p[i]);
            } else {
                assert(m[i] == ips[n - 1]);
            }
        }
        if exists|j: int| 0 <= j < n && labels[j] == k && contains_seq(spec_to_lowercase(#[trigger] ips[j]), w) {
            let j = choose|j: int| 0 <= j < n && labels[j] == k && contains_seq(spec_to_lowercase(#[trigger] ips[j]), w);
            if j < n - 1 {
                let i = choose|i: int| 0 <= i < p.len() && contains_seq(spec_to_lowercase(#[trigger] p[i]), w);
                assert(m[i] == p[i]);
            } else {
                assert(m[p.len() as int] == ips[n - 1]);
            }
        }
    }
}

proof fn lemma_kept_groups_nonempty(
    gs: Seq<Seq<char>>,
    ips: Seq<Seq<char>>,
    labels: Seq<Seq<char>>,
    kw: Option<Seq<char>>,
)
    ensures
        (kept_groups(gs, ips, labels, kw).len() > 0) == (exists|t: int|
            0 <= t < gs.len() && group_kept(kw, #[trigger] gs[t], members(ips, labels, gs[t], ips.len()))),
    decreases gs.len(),
{
    if gs.len() > 0 {
        let d = gs.drop_last();
        lemma_kept_groups_nonempty(d, ips, labels, kw);
        if exists|t: int| 0 <= t < d.len() && group_kept(kw, #[trigger] d[t], members(ips, labels, d[t], ips.len())) {
            let t = choose|t: int| 0 <= t < d.len() && group_kept(kw, #[trigger] d[t], members(ips, labels, d[t], ips.len()));
            assert(gs[t] == d[t]);
        }
        if exists|t: int| 0 <= t < gs.len() && group_kept(kw, #[trigger] gs[t], members(ips, labels, gs[t], ips.len())) {
            let t = choose|t: int| 0 <= t < gs.len() && group_kept(kw, #[trigger] gs[t], members(ips, labels, gs[t], ips.len()));
            if t < d.len() {
                assert(d[t] == gs[t]);
            }
        }
    }
}

/// The internet section and its heading appear exactly when some public
/// destination passes the keyword: with no keyword, when there is a public
/// destination; with a (lower-case) keyword, when the lower-cased address or
/// provider label of some public destination contains it.
pub proof fn law_public_heading(
    c: Palette,
    g: GraphView,
    kw: Option<Seq<char>>,
    all: bool,
    resolve: bool,
    orgs: Seq<Option<Seq<char>>>,
)
    ensures
        ({
            let ips = pub_ips(g.edges);
            let labels = isp_labels(ips, g.nodes, orgs);
            let ks = kept_groups(sort_dedup(labels), ips, labels, kw);
            let shown = ips.len() > 0 && match kw {
                None => true,
                Some(w) => exists|j: int|
                    0 <= j < ips.len() && (contains_seq(spec_to_lowercase(#[trigger] ips[j]), w)
                        || contains_seq(spec_to_lowercase(labels[j]), w)),
            };
            &&& !shown ==> pub_section(c, g, kw, all, resolve, orgs) == Seq::<char>::empty()
            &&& shown ==> pub_section(c, g, kw, all, resolve, orgs) == pub_heading(
                c,
                members_total(ks, ips, labels, ips.len()),
            ) + group_blocks(ks, ks.len(), ips, labels, all, c, g.nodes, g.edges, resolve)
        }),
{
    let ips = pub_ips(g.edges);
    let labels = isp_labels(ips, g.nodes, orgs);
    let gs = sort_dedup(labels);
    let ks = kept_groups(gs, ips, labels, kw);
    lemma_kept_groups_nonempty(gs, ips, labels, kw);
    let shown = ips.len() > 0 && match kw {
        None => true,
        Some(w) => exists|j: int|
            0 <= j < ips.len() && (contains_seq(spec_to_lowercase(#[trigger] ips[j]), w)
                || contains_seq(spec_to_lowercase(labels[j]), w)),
    };
    let groups = exists|t: int|
        0 <= t < gs.len() && group_kept(kw, #[trigger] gs[t], members(ips, labels, gs[t], ips.len()));
    if ips.len() > 0 {
        if groups {
            let t = choose|t: int|
                0 <= t < gs.len() && group_kept(kw, #[trigger] gs[t], members(ips, labels, gs[t], ips.len()));
            let x = gs[t];
            assert(gs.contains(x));
            lemma_sort_dedup_contains(labels, x);
            let j0 = choose|j: int| 0 <= j < labels.len() && labels[j] == x;
            match kw {
                None => {},
                Some(w) => {
                    lemma_members_has(ips, labels, x, ips.len(), w);
                    if contains_seq(spec_to_lowercase(x), w) {
                        assert(contains_seq(spec_to_lowercase(labels[j0]), w));
                    } else {
                        let j = choose|j: int|
                            0 <= j < ips.len() && labels[j] == x && contains_seq(spec_to_lowercase(#[trigger] ips[j]), w);
                        assert(contains_seq(spec_to_lowercase(ips[j]), w));
                    }
                },
            }
        }
        if shown {
            match kw {
                None => {
                    assert(labels.contains(labels[0]));
                    lemma_sort_dedup_contains(labels, labels[0]);
                    let t = choose|t: int| 0 <= t < gs.len() && gs[t] == labels[0];
                    assert(group_kept(kw, gs[t], members(ips, labels, gs[t], ips.len())));
                },
                Some(w) => {
                    let j = choose|j: int|
                        0 <= j < ips.len() && (contains_seq(spec_to_lowercase(#[trigger] ips[j]), w)
                            || contains_seq(spec_to_lowercase(labels[j]), w));
                    let x = labels[j];
                    assert(labels.contains(x));
                    lemma_sort_dedup_contains(labels, x);
                    let t = choose|t: int| 0 <= t < gs.len() && gs[t] == x;
                    lemma_members_has(ips, labels, x, ips.len(), w);
                    if contains_seq(spec_to_lowercase(ips[j]), w) {
                        assert(labels[j] == x && contains_seq(spec_to_lowercase(ips[j]), w));
                    }
                    assert(group_kept(kw, gs[t], members(ips, labels, gs[t], ips.len())));
                },
            }
        }
    }
}


/// No escape character in a text.
pub open spec fn no_esc(t: Seq<char>) -> bool {
    forall|k: int| 0 <= k < t.len() ==> t[k] != '\x1b'
}

proof fn lemma_dec_digits(n: nat, m: nat)
    requires
        n < pow10(m),
        m >= 1,
    ensures
        dec(n).len() <= m,
        no_esc(dec(n)),
        display_width(dec(n)) == dec(n).len(),
    decreases n,
{
    if n < 10 {
        assert(dec(n) == seq![digit_char(n)]);
        assert((digit_char(n) as u32) == n + 0x30);
        assert(char_width(digit_char(n)) == 1);
        assert(dec(n).drop_last() =~= Seq::<char>::empty());
        assert(dec(n).last() == digit_char(n));
        assert(display_width(dec(n)) == display_width(dec(n).drop_last()) + char_width(dec(n).last()));
    } else {
        lemma_pow10_step(m, n);
        lemma_dec_digits(n / 10, (m - 1) as nat);
        let p = dec(n / 10);
        let ch = digit_char(n % 10);
        assert((ch as u32) == n % 10 + 0x30);
        assert(char_width(ch) == 1);
        assert(dec(n) == p.push(ch));
        assert(dec(n).drop_last() =~= p);
        assert(dec(n).last() == ch);
        assert(display_width(dec(n)) == display_width(p) + char_width(ch));
        assert forall|k: int| 0 <= k < dec(n).len() implies dec(n)[k] != '\x1b' by {
            if k < p.len() {
                assert(dec(n)[k] == p[k]);
            }
        }
    }
}

pub open spec fn pow10(m: nat) -> nat
    decreases m,
{
    if m == 0 {
        1
    } else {
        10 * pow10((m - 1) as nat)
    }
}

proof fn lemma_pow10_step(m: nat, n: nat)
    requires
        m >= 1,
        n >= 10,
        n < pow10(m),
    ensures
        n / 10 < pow10((m - 1) as nat),
        m - 1 >= 1,
{
    if m == 1 {
        assert(pow10(1) == 10 * pow10(0));
    }
    let q = pow10((m - 1) as nat);
    assert(pow10(m) == 10 * q);
    assert(n / 10 < q) by (nonlinear_arith)
        requires
            n < 10 * q,
    ;
}

proof fn lemma_char_run_width(c: char, n: nat)
    requires
        char_width(c) == 1,
        c != '\x1b',
    ensures
        display_width(char_run(c, n)) == n,
        no_esc(char_run(c, n)),
    decreases n,
{
    if n > 0 {
        assert(char_run(c, n).drop_last() =~= char_run(c, (n - 1) as nat));
        lemma_char_run_width(c, (n - 1) as nat);
    }
}

proof fn lemma_no_esc_concat(a: Seq<char>, b: Seq<char>)
    requires
        no_esc(a),
        no_esc(b),
    ensures
        no_esc(a + b),
        display_width(a + b) == display_width(a) + display_width(b),
{
    assert forall|k: int| 0 <= k < (a + b).len() implies (a + b)[k] != '\x1b' by {
        if k < a.len() {
            assert((a + b)[k] == a[k]);
        } else {
            assert((a + b)[k] == b[k - a.len()]);
        }
    }
    law_display_width_concat(a, b);
}

/// A coloured plain line: its width is that of the plain text.
proof fn lemma_coloured_plain(x: Seq<char>, t: Seq<char>, y: Seq<char>)
    requires
        colour_ok(x),
        colour_ok(y),
        no_esc(t),
    ensures
        shown_width(x + t + y, false) == display_width(t),
{
    lemma_coloured(x, t, y);
    lemma_shown_width_plain(t);
}

proof fn lemma_dec_u64(n: nat)
    requires
        n < 0x1_0000_0000_0000_0000,
    ensures
        dec(n).len() <= 20,
        no_esc(dec(n)),
        display_width(dec(n)) == dec(n).len(),
{
    reveal_with_fuel(pow10, 21);
    assert(pow10(20) == 100_000_000_000_000_000_000);
    lemma_dec_digits(n, 20);
}

/// A coloured line of a literal, a number and a literal.
proof fn lemma_counted_line(c: Palette, l1: Seq<char>, n: nat, l2: Seq<char>)
    requires
        colour_ok(c.sep),
        colour_ok(c.reset),
        no_esc(l1),
        no_esc(l2),
        n < 0x1_0000_0000_0000_0000,
    ensures
        shown_width(c.sep + (l1 + dec(n) + l2) + c.reset, false) <= display_width(l1) + 20 + display_width(
            l2,
        ),
{
    lemma_dec_u64(n);
    lemma_no_esc_concat(l1, dec(n));
    lemma_no_esc_concat(l1 + dec(n), l2);
    lemma_coloured_plain(c.sep, l1 + dec(n) + l2, c.reset);
}

proof fn lemma_lan_heading_literals()
    ensures
        display_width("━━━ 局域网设备 ("@) == 16,
        display_width(") ━━━━━━━━━━━━━━━━━━━━"@) == 22,
        no_esc("━━━ 局域网设备 ("@),
        no_esc(") ━━━━━━━━━━━━━━━━━━━━"@),
{
    reveal_strlit("━━━ 局域网设备 (");
    reveal_strlit(") ━━━━━━━━━━━━━━━━━━━━");
    reveal_with_fuel(display_width, 24);
}

proof fn lemma_pub_heading_literals()
    ensures
        display_width("━━━ 公网连接 ("@) == 14,
        display_width(") ━━━━━━━━━━━━━━━━━━━━━"@) == 23,
        no_esc("━━━ 公网连接 ("@),
        no_esc(") ━━━━━━━━━━━━━━━━━━━━━"@),
{
    reveal_strlit("━━━ 公网连接 (");
    reveal_strlit(") ━━━━━━━━━━━━━━━━━━━━━");
    reveal_with_fuel(display_width, 24);
}

proof fn lemma_hidden_literals()
    ensures
        display_width("└─► … 还有 "@) == 11,
        display_width(" 条，使用 --all-connections 显示全部"@) == 36,
        no_esc("└─► … 还有 "@),
        no_esc(" 条，使用 --all-connections 显示全部"@),
{
    reveal_strlit("└─► … 还有 ");
    reveal_strlit(" 条，使用 --all-connections 显示全部");
    reveal_with_fuel(display_width, 32);
}

proof fn lemma_frame_line(c: Palette, left: Seq<char>, right: Seq<char>)
    requires
        colour_ok(c.sep),
        colour_ok(c.reset),
        left.len() == 1,
        right.len() == 1,
        char_width(left[0]) == 1,
        char_width(right[0]) == 1,
        left[0] != '\x1b',
        right[0] != '\x1b',
    ensures
        shown_width(rule_line(c, left, right), false) == 44,
{
    assert(char_width('═') == 1);
    lemma_char_run_width('═', 42);
    assert(left.drop_last() =~= Seq::<char>::empty());
    assert(right.drop_last() =~= Seq::<char>::empty());
    assert(left.last() == left[0] && right.last() == right[0]);
    assert(display_width(Seq::<char>::empty()) == 0);
    assert(display_width(left) == display_width(left.drop_last()) + char_width(left.last()));
    assert(display_width(right) == display_width(right.drop_last()) + char_width(right.last()));
    lemma_no_esc_concat(left, char_run('═', 42));
    lemma_no_esc_concat(left + char_run('═', 42), right);
    assert(rule_line(c, left, right) =~= c.sep + (left + char_run('═', 42) + right) + c.reset);
    lemma_coloured_plain(c.sep, left + char_run('═', 42) + right, c.reset);
}

/// The fixed lines of the overview stay within 80 columns too (escape codes
/// take none; the newline is not counted): the section headings, whatever
/// their counts (below 2^64), take at most 58 columns, the line counting the
/// hidden destinations at most 69 with its indent, the frame lines of the
/// title 44, the rule above the summary 79 and the summary line at most 79.
pub proof fn law_fixed_lines_within_80(
    enabled: bool,
    n: nat,
    s: GraphSummary,
    es: Seq<EdgeView>,
    resolve: bool,
)
    requires
        n < 0x1_0000_0000_0000_0000,
    ensures
        ({
            let c = palette(enabled);
            &&& shown_width(c.sep + ("━━━ 局域网设备 ("@ + dec(n) + ") ━━━━━━━━━━━━━━━━━━━━"@) + c.reset, false) <= 58
            &&& shown_width(c.sep + ("━━━ 公网连接 ("@ + dec(n) + ") ━━━━━━━━━━━━━━━━━━━━━"@) + c.reset, false) <= 57
            &&& shown_width(c.sep + ("└─► … 还有 "@ + dec(n) + " 条，使用 --all-connections 显示全部"@) + c.reset, false) + 2 <= 69
            &&& shown_width(rule_line(c, "╔"@, "╗"@), false) == 44
            &&& shown_width(rule_line(c, "╚"@, "╝"@), false) == 44
            &&& shown_width(c.sep + char_run('─', 79) + c.reset, false) == 79
            &&& shown_width(trunc_text(summary_text(s, es, resolve), 79), false) <= 79
        }),
{
    let c = palette(enabled);
    lemma_palette_colours(enabled);
    lemma_lan_heading_literals();
    lemma_counted_line(c, "━━━ 局域网设备 ("@, n, ") ━━━━━━━━━━━━━━━━━━━━"@);
    lemma_pub_heading_literals();
    lemma_counted_line(c, "━━━ 公网连接 ("@, n, ") ━━━━━━━━━━━━━━━━━━━━━"@);
    lemma_hidden_literals();
    lemma_counted_line(c, "└─► … 还有 "@, n, " 条，使用 --all-connections 显示全部"@);
    reveal_strlit("╔");
    reveal_strlit("╗");
    reveal_strlit("╚");
    reveal_strlit("╝");
    lemma_frame_line(c, "╔"@, "╗"@);
    lemma_frame_line(c, "╚"@, "╝"@);
    assert(char_width('─') == 1);
    lemma_char_run_width('─', 79);
    lemma_coloured_plain(c.sep, char_run('─', 79), c.reset);
    law_trunc_within_limit(summary_text(s, es, resolve), 79);
}

proof fn lemma_plain_then(a: Seq<char>, b: Seq<char>)
    requires
        no_esc(a),
    ensures
        shown_width(a + b, false) == display_width(a) + shown_width(b, false),
    decreases a.len(),
{
    if a.len() == 0 {
        assert(a + b =~= b);
    } else {
        let w = a + b;
        let r = a.drop_first();
        assert(w[0] == a[0]);
        assert(w.drop_first() =~= r + b);
        assert forall|k: int| 0 <= k < r.len() implies r[k] != '\x1b' by {
            assert(r[k] == a[k + 1]);
        }
        lemma_plain_then(r, b);
        assert(a =~= seq![a[0]] + r);
        law_display_width_concat(seq![a[0]], r);
        assert(seq![a[0]].drop_last() =~= Seq::<char>::empty());
        assert(seq![a[0]].last() == a[0]);
        assert(display_width(seq![a[0]]) == display_width(Seq::<char>::empty()) + char_width(a[0]));
    }
}

/// A colour in front of a text takes no columns.
proof fn lemma_colour_then(x: Seq<char>, b: Seq<char>)
    requires
        colour_ok(x),
    ensures
        shown_width(x + b, false) == shown_width(b, false),
{
    if x.len() == 0 {
        assert(x + b =~= b);
    } else {
        lemma_code_prefix(x, b, false);
    }
}

/// Each character takes at most as many columns as it has UTF-8 bytes.
proof fn lemma_width_le_utf8(t: Seq<char>)
    ensures
        display_width(t) <= utf8_len(t),
    decreases t.len(),
{
    if t.len() > 0 {
        lemma_width_le_utf8(t.drop_last());
    }
}

proof fn lemma_spaces_width(n: nat)
    ensures
        display_width(spaces(n)) == n,
        no_esc(spaces(n)),
{
    assert(char_width(' ') == 1);
    lemma_char_run_width(' ', n);
}

/// A framed line: the two frame characters and the content's columns.
proof fn lemma_boxed_line(c: Palette, content: Seq<char>)
    requires
        colour_ok(c.sep),
        colour_ok(c.reset),
        no_esc(content),
    ensures
        boxed_line(c, content) == (c.sep + "║"@ + c.reset + content + c.sep + "║"@ + c.reset).push('\n'),
        shown_width(c.sep + "║"@ + c.reset + content + c.sep + "║"@ + c.reset, false) == display_width(
            content,
        ) + 2,
{
    reveal_strlit("║");
    reveal_strlit("\n");
    let bar = "║"@;
    assert(bar.len() == 1 && bar[0] == '║');
    assert(char_width('║') == 1);
    assert(bar.drop_last() =~= Seq::<char>::empty());
    assert(display_width(bar) == display_width(bar.drop_last()) + char_width(bar.last()));
    assert(no_esc(bar));
    let tail = c.sep + bar + c.reset;
    assert(c.sep + "║"@ + c.reset + content + c.sep + "║"@ + c.reset =~= c.sep + (bar + (c.reset + (
    content + tail))));
    lemma_coloured(c.sep, bar, c.reset);
    lemma_shown_width_plain(bar);
    lemma_colour_then(c.reset, Seq::<char>::empty());
    assert(c.reset + Seq::<char>::empty() =~= c.reset);
    assert(shown_width(Seq::<char>::empty(), false) == 0);
    assert(tail =~= c.sep + bar + c.reset);
    lemma_plain_then(content, tail);
    lemma_colour_then(c.reset, content + tail);
    lemma_plain_then(bar, c.reset + (content + tail));
    lemma_colour_then(c.sep, bar + (c.reset + (content + tail)));
}

/// Centring a plain text of at most `inner` columns, measured by `w` at
/// least its width, takes at most `inner` columns.
proof fn lemma_center_width(t: Seq<char>, w: nat, inner: nat)
    requires
        no_esc(t),
        display_width(t) <= w,
        w <= inner,
    ensures
        no_esc(center_text(t, w, inner)),
        display_width(center_text(t, w, inner)) <= inner,
        display_width(t) == w ==> display_width(center_text(t, w, inner)) == inner,
{
    let pad: nat = (inner - w) as nat;
    let left: nat = pad / 2;
    lemma_spaces_width(left);
    lemma_spaces_width((pad - left) as nat);
    lemma_no_esc_concat(spaces(left), t);
    lemma_no_esc_concat(spaces(left) + t, spaces((pad - left) as nat));
}

/// The title box's framed lines take 44 columns or fewer: the title's line
/// exactly 44, the time's at most 44, for a capture time without escape
/// characters that can be cut at byte 16 (as the renderers require).
pub proof fn law_title_box_within_80(enabled: bool, captured: Seq<char>)
    requires
        no_esc(captured),
        cut16_ok(captured),
    ensures
        ({
            let c = palette(enabled);
            let t = time_text(captured);
            let l1 = center_text("netopo 拓扑图"@, display_width("netopo 拓扑图"@), 42);
            let l2 = center_text(t, utf8_len(t), 42);
            &&& shown_width(c.sep + "║"@ + c.reset + l1 + c.sep + "║"@ + c.reset, false) == 44
            &&& shown_width(c.sep + "║"@ + c.reset + l2 + c.sep + "║"@ + c.reset, false) <= 44
        }),
{
    let c = palette(enabled);
    lemma_palette_colours(enabled);
    reveal_strlit("netopo 拓扑图");
    reveal_with_fuel(display_width, 12);
    let title = "netopo 拓扑图"@;
    assert(display_width(title) == 13);
    assert(no_esc(title));
    lemma_center_width(title, 13, 42);
    lemma_boxed_line(c, center_text(title, 13, 42));
    let t = time_text(captured);
    if utf8_len(captured) >= 16 {
        let k = choose|k: int| 0 <= k <= captured.len() && utf8_len(captured.take(k)) == 16;
        let x = captured.take(k);
        assert(t == t_to_space(x));
        assert(t.len() == x.len() && x.len() == k);
        assert forall|i: int| 0 <= i < t.len() implies t[i] != '\x1b' by {
            assert(x[i] == captured[i]);
            assert(t[i] == (if x[i] == 'T' { ' ' } else { x[i] }));
        }
        lemma_utf8_t_to_space(x);
    } else {
        assert(t == captured);
    }
    lemma_width_le_utf8(t);
    lemma_center_width(t, utf8_len(t), 42);
    lemma_boxed_line(c, center_text(t, utf8_len(t), 42));
}

proof fn lemma_utf8_t_to_space(x: Seq<char>)
    ensures
        utf8_len(t_to_space(x)) == utf8_len(x),
    decreases x.len(),
{
    if x.len() > 0 {
        lemma_utf8_t_to_space(x.drop_last());
        assert(t_to_space(x).drop_last() =~= t_to_space(x.drop_last()));
        assert(t_to_space(x).last() == (if x.last() == 'T' { ' ' } else { x.last() }));
        assert(utf8_width(' ') == 1 && utf8_width('T') == 1);
    }
}


proof fn lemma_local_dsts_members(es: Seq<EdgeView>, l: Seq<char>)
    ensures
        no_dup(local_dsts(es, l)),
        forall|x: Seq<char>|
            #[trigger] local_dsts(es, l).contains(x) ==> lan_ip(x) && exists|j: int|
                0 <= j < es.len() && (#[trigger] es[j]).src == l && es[j].dst == x,
        forall|j: int|
            0 <= j < es.len() && (#[trigger] es[j]).src == l && lan_ip(es[j].dst) ==> local_dsts(
                es,
                l,
            ).contains(es[j].dst),
    decreases es.len(),
{
    if es.len() > 0 {
        let p = es.drop_last();
        let d = local_dsts(p, l);
        let e = es.last();
        let r = local_dsts(es, l);
        lemma_local_dsts_members(p, l);
        assert forall|x: Seq<char>| #[trigger] r.contains(x) implies lan_ip(x) && exists|j: int|
            0 <= j < es.len() && (#[trigger] es[j]).src == l && es[j].dst == x by {
            if d.contains(x) {
                let j = choose|j: int| 0 <= j < p.len() && (#[trigger] p[j]).src == l && p[j].dst == x;
                assert(es[j] == p[j]);
            } else {
                let i = choose|i: int| 0 <= i < r.len() && r[i] == x;
                assert(i == d.len());
                assert(es[es.len() - 1] == e);
            }
        }
        assert forall|j: int|
            0 <= j < es.len() && (#[trigger] es[j]).src == l && lan_ip(es[j].dst) implies r.contains(es[j].dst) by {
            if j < p.len() {
                assert(p[j] == es[j]);
                assert(d.contains(p[j].dst));
                let i = choose|i: int| 0 <= i < d.len() && d[i] == es[j].dst;
                assert(r[i] == d[i]);
            } else if d.contains(e.dst) {
                let i = choose|i: int| 0 <= i < d.len() && d[i] == es[j].dst;
                assert(r[i] == d[i]);
            } else {
                assert(r[d.len() as int] == e.dst);
            }
        }
        assert forall|a: int, b: int| 0 <= a < b < r.len() implies #[trigger] r[a] != #[trigger] r[b] by {
            if b == d.len() && !d.contains(e.dst) && e.src == l && lan_ip(e.dst) {
                assert(r[a] == d[a]);
                if r[a] == r[b] {
                    assert(d.contains(e.dst));
                }
            } else {
                assert(r[a] == d[a] && r[b] == d[b]);
            }
        }
    }
}

proof fn lemma_kw_filter_members(ds: Seq<Seq<char>>, kw: Option<Seq<char>>, ns: Seq<NodeView>)
    requires
        no_dup(ds),
    ensures
        no_dup(kw_filter(ds, kw, ns)),
        forall|x: Seq<char>|
            #[trigger] kw_filter(ds, kw, ns).contains(x) == (ds.contains(x) && kw_match(kw, ns, x)),
    decreases ds.len(),
{
    if ds.len() > 0 {
        let p = ds.drop_last();
        let f = kw_filter(p, kw, ns);
        let r = kw_filter(ds, kw, ns);
        let y = ds.last();
        assert forall|a: int, b: int| 0 <= a < b < p.len() implies #[trigger] p[a] != #[trigger] p[b] by {
            assert(p[a] == ds[a] && p[b] == ds[b]);
        }
        lemma_kw_filter_members(p, kw, ns);
        assert(!p.contains(y)) by {
            if p.contains(y) {
                let i = choose|i: int| 0 <= i < p.len() && p[i] == y;
                assert(ds[i] == ds[ds.len() - 1]);
            }
        }
        assert forall|x: Seq<char>| #[trigger] r.contains(x) == (ds.contains(x) && kw_match(kw, ns, x)) by {
            if r.contains(x) {
                let i = choose|i: int| 0 <= i < r.len() && r[i] == x;
                if i < f.len() {
                    assert(r[i] == f[i]);
                    assert(f.contains(x));
                    let k = choose|k: int| 0 <= k < p.len() && p[k] == x;
                    assert(ds[k] == x);
                } else {
                    assert(ds[ds.len() - 1] == x);
                }
            }
            if ds.contains(x) && kw_match(kw, ns, x) {
                let k = choose|k: int| 0 <= k < ds.len() && ds[k] == x;
                if k < p.len() {
                    assert(p[k] == x);
                    assert(f.contains(x));
                    let i = choose|i: int| 0 <= i < f.len() && f[i] == x;
                    assert(r[i] == f[i]);
                } else {
                    assert(r[f.len() as int] == x);
                }
            }
        }
        assert forall|a: int, b: int| 0 <= a < b < r.len() implies #[trigger] r[a] != #[trigger] r[b] by {
            if b == f.len() && kw_match(kw, ns, y) {
                assert(r[a] == f[a]);
                assert(f.contains(f[a]));
                if f[a] == y {
                    assert(p.contains(y));
                }
            } else {
                assert(r[a] == f[a] && r[b] == f[b]);
            }
        }
    }
}

/// The local network destinations shown under the local node are distinct,
/// and they are exactly the local network destinations of connections from
/// the local address that pass the keyword: each such destination is shown
/// once, and nothing else is shown.
pub proof fn law_lan_destinations_once(g: GraphView, l: Seq<char>, kw: Option<Seq<char>>)
    ensures
        ({
            let ds = lan_shown(g, l, kw);
            &&& forall|a: int, b: int| 0 <= a < b < ds.len() ==> #[trigger] ds[a] != #[trigger] ds[b]
            &&& forall|j: int|
                0 <= j < g.edges.len() && (#[trigger] g.edges[j]).src == l && lan_ip(g.edges[j].dst)
                    && kw_match(kw, g.nodes, g.edges[j].dst) ==> ds.contains(g.edges[j].dst)
            &&& forall|x: Seq<char>|
                #[trigger] ds.contains(x) ==> lan_ip(x) && kw_match(kw, g.nodes, x) && exists|j: int|
                    0 <= j < g.edges.len() && (#[trigger] g.edges[j]).src == l && g.edges[j].dst == x
        }),
{
    lemma_local_dsts_members(g.edges, l);
    lemma_kw_filter_members(local_dsts(g.edges, l), kw, g.nodes);
    let ds = lan_shown(g, l, kw);
    assert forall|j: int|
        0 <= j < g.edges.len() && (#[trigger] g.edges[j]).src == l && lan_ip(g.edges[j].dst) && kw_match(
            kw,
            g.nodes,
            g.edges[j].dst,
        ) implies ds.contains(g.edges[j].dst) by {
        assert(local_dsts(g.edges, l).contains(g.edges[j].dst));
    }
    assert forall|x: Seq<char>| #[trigger] ds.contains(x) implies lan_ip(x) && kw_match(kw, g.nodes, x)
        && exists|j: int| 0 <= j < g.edges.len() && (#[trigger] g.edges[j]).src == l && g.edges[j].dst == x by {
        assert(local_dsts(g.edges, l).contains(x));
    }
}

} // verus!
