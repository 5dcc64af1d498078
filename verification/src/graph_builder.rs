//! Building the topology graph: merging duplicate connections, marking the
//! local node, adding placeholder nodes for every connection endpoint, and
//! filtering by connection count.
use vstd::prelude::*;
use crate::data_manager::{
    Edge, EdgeView, Graph, GraphSummary, GraphView, Node, NodeView, edge_views, node_views,
    lemma_node_views_push, copy_opt_string, opt_view,
};
use crate::text::{is_ascii_seq, str_eq};
use crate::layout::{cut16_ok, lemma_ascii_cut16};
use crate::index::index_graph;
use crate::order::{
    seq_lt, lemma_seq_lt_irreflexive, lemma_seq_lt_transitive, lemma_seq_lt_total,
    lemma_seq_lt_asymmetric, compare_str,
};

verus! {

// ───────────────────────────── edge keys ───────────────────────────────────

/// The key by which connections are merged: source, destination, protocol
/// and destination port.
pub type EdgeKey = (Seq<char>, Seq<char>, Seq<char>, u16);

pub open spec fn ekey(e: EdgeView) -> EdgeKey {
    (e.src, e.dst, e.protocol, e.dst_port)
}

/// The order of merged connections: by source, then destination, then
/// protocol, then destination port.
pub open spec fn key_lt(a: EdgeKey, b: EdgeKey) -> bool {
    ||| seq_lt(a.0, b.0)
    ||| a.0 == b.0 && seq_lt(a.1, b.1)
    ||| a.0 == b.0 && a.1 == b.1 && seq_lt(a.2, b.2)
    ||| a.0 == b.0 && a.1 == b.1 && a.2 == b.2 && a.3 < b.3
}

pub proof fn lemma_key_lt_irreflexive(a: EdgeKey)
    ensures
        !key_lt(a, a),
{
    lemma_seq_lt_irreflexive(a.0);
    lemma_seq_lt_irreflexive(a.1);
    lemma_seq_lt_irreflexive(a.2);
}

pub proof fn lemma_key_lt_transitive(a: EdgeKey, b: EdgeKey, c: EdgeKey)
    requires
        key_lt(a, b),
        key_lt(b, c),
    ensures
        key_lt(a, c),
{
    if seq_lt(a.0, b.0) && seq_lt(b.0, c.0) {
        lemma_seq_lt_transitive(a.0, b.0, c.0);
    }
    if seq_lt(a.1, b.1) && seq_lt(b.1, c.1) {
        lemma_seq_lt_transitive(a.1, b.1, c.1);
    }
    if seq_lt(a.2, b.2) && seq_lt(b.2, c.2) {
        lemma_seq_lt_transitive(a.2, b.2, c.2);
    }
}

pub proof fn lemma_key_lt_total(a: EdgeKey, b: EdgeKey)
    ensures
        a == b || key_lt(a, b) || key_lt(b, a),
{
    lemma_seq_lt_total(a.0, b.0);
    lemma_seq_lt_total(a.1, b.1);
    lemma_seq_lt_total(a.2, b.2);
}

pub proof fn lemma_key_lt_asymmetric(a: EdgeKey, b: EdgeKey)
    requires
        key_lt(a, b),
    ensures
        !key_lt(b, a),
        a != b,
{
    if key_lt(b, a) {
        lemma_key_lt_transitive(a, b, a);
        lemma_key_lt_irreflexive(a);
    }
    lemma_key_lt_irreflexive(a);
}

/// Compares the merge keys of two connections: negative, zero or positive.
pub fn compare_edge_keys(a: &Edge, b: &Edge) -> (r: i8)
    ensures
        (r == 0) == (ekey(a@) == ekey(b@)),
        (r < 0) == key_lt(ekey(a@), ekey(b@)),
        (r > 0) == key_lt(ekey(b@), ekey(a@)),
{
    let ghost ka = ekey(a@);
    let ghost kb = ekey(b@);
    proof {
        lemma_key_lt_total(ka, kb);
        lemma_key_lt_irreflexive(ka);
        if key_lt(ka, kb) {
            lemma_key_lt_asymmetric(ka, kb);
        }
        if key_lt(kb, ka) {
            lemma_key_lt_asymmetric(kb, ka);
        }
    }
    let c = compare_str(a.src.as_str(), b.src.as_str());
    if c != 0 {
        proof {
            if c == 1 {
                lemma_seq_lt_asymmetric(kb.0, ka.0);
            }
        }
        return c;
    }
    let c = compare_str(a.dst.as_str(), b.dst.as_str());
    if c != 0 {
        proof {
            if c == 1 {
                lemma_seq_lt_asymmetric(kb.1, ka.1);
            }
        }
        return c;
    }
    let c = compare_str(a.protocol.as_str(), b.protocol.as_str());
    if c != 0 {
        proof {
            if c == 1 {
                lemma_seq_lt_asymmetric(kb.2, ka.2);
            }
        }
        return c;
    }
    if a.dst_port < b.dst_port {
        -1
    } else if a.dst_port == b.dst_port {
        0
    } else {
        1
    }
}

// ───────────────────────────── merging connections ─────────────────────────

/// Some connection of `s` has key `k`.
pub open spec fn has_key(s: Seq<EdgeView>, k: EdgeKey) -> bool {
    exists|j: int| 0 <= j < s.len() && ekey(s[j]) == k
}

/// The sum of the counts of the connections of `s` with key `k`.
pub open spec fn key_sum(s: Seq<EdgeView>, k: EdgeKey) -> nat
    decreases s.len(),
{
    if s.len() == 0 {
        0
    } else {
        key_sum(s.drop_last(), k) + if ekey(s.last()) == k {
            s.last().count as nat
        } else {
            0
        }
    }
}

/// The first connection of `s` with key `k` (meaningful where `has_key`).
pub open spec fn first_with(s: Seq<EdgeView>, k: EdgeKey) -> EdgeView
    decreases s.len(),
{
    if s.len() > 0 && has_key(s.drop_last(), k) {
        first_with(s.drop_last(), k)
    } else {
        s.last()
    }
}

/// The merged connection of key `k`: the first one with that key, with the
/// sum of the counts of all of them.
pub open spec fn merged(s: Seq<EdgeView>, k: EdgeKey) -> EdgeView {
    let f = first_with(s, k);
    EdgeView {
        src: f.src,
        dst: f.dst,
        protocol: f.protocol,
        src_port: f.src_port,
        dst_port: f.dst_port,
        state: f.state,
        count: key_sum(s, k) as u32,
    }
}

/// The keys of `r` ascend strictly: no key occurs twice.
pub open spec fn strictly_sorted(r: Seq<EdgeView>) -> bool {
    forall|a: int, b: int| 0 <= a < b < r.len() ==> key_lt(ekey(#[trigger] r[a]), ekey(#[trigger] r[b]))
}

/// `r` is `s` with the connections of each key merged into one, sorted by key.
pub open spec fn deduped(s: Seq<EdgeView>, r: Seq<EdgeView>) -> bool {
    &&& strictly_sorted(r)
    &&& forall|k: EdgeKey| #[trigger] has_key(r, k) == has_key(s, k)
    &&& forall|j: int| 0 <= j < r.len() ==> #[trigger] r[j] == merged(s, ekey(r[j]))
}

/// No key's count sum overflows a `u32`.
pub open spec fn counts_fit(s: Seq<EdgeView>) -> bool {
    forall|k: EdgeKey| #[trigger] key_sum(s, k) <= u32::MAX
}

/// The sum of all counts.
pub open spec fn total_count(s: Seq<EdgeView>) -> nat
    decreases s.len(),
{
    if s.len() == 0 {
        0
    } else {
        total_count(s.drop_last()) + s.last().count as nat
    }
}

pub proof fn lemma_push_facts(s: Seq<EdgeView>, e: EdgeView, k: EdgeKey)
    ensures
        key_sum(s.push(e), k) == key_sum(s, k) + if ekey(e) == k {
            e.count as nat
        } else {
            0
        },
        has_key(s.push(e), k) == (has_key(s, k) || ekey(e) == k),
        has_key(s, k) ==> first_with(s.push(e), k) == first_with(s, k),
        !has_key(s, k) ==> first_with(s.push(e), k) == e,
        total_count(s.push(e)) == total_count(s) + e.count,
{
    assert(s.push(e).drop_last() =~= s);
    if has_key(s.push(e), k) && !has_key(s, k) {
        let j = choose|j: int| 0 <= j < s.push(e).len() && ekey(s.push(e)[j]) == k;
        assert(j == s.len());
    }
    if has_key(s, k) {
        let j = choose|j: int| 0 <= j < s.len() && ekey(s[j]) == k;
        assert(ekey(s.push(e)[j]) == k);
    }
    if ekey(e) == k {
        assert(ekey(s.push(e)[s.len() as int]) == k);
    }
}

pub proof fn lemma_key_sum_absent(s: Seq<EdgeView>, k: EdgeKey)
    requires
        !has_key(s, k),
    ensures
        key_sum(s, k) == 0,
    decreases s.len(),
{
    if s.len() > 0 {
        assert(s.drop_last().push(s.last()) =~= s);
        lemma_push_facts(s.drop_last(), s.last(), k);
        lemma_key_sum_absent(s.drop_last(), k);
    }
}

pub proof fn lemma_key_sum_prefix(s: Seq<EdgeView>, i: int, k: EdgeKey)
    requires
        0 <= i <= s.len(),
    ensures
        key_sum(s.take(i), k) <= key_sum(s, k),
    decreases s.len(),
{
    if i < s.len() {
        assert(s.drop_last().take(i) =~= s.take(i));
        lemma_key_sum_prefix(s.drop_last(), i, k);
    } else {
        assert(s.take(i) =~= s);
    }
}

pub proof fn lemma_total_insert(r: Seq<EdgeView>, j: int, x: EdgeView)
    requires
        0 <= j <= r.len(),
    ensures
        total_count(r.insert(j, x)) == total_count(r) + x.count,
    decreases r.len(),
{
    if j == r.len() {
        assert(r.insert(j, x) =~= r.push(x));
        lemma_push_facts(r, x, ekey(x));
    } else {
        assert(r.insert(j, x).drop_last() =~= r.drop_last().insert(j, x));
        lemma_total_insert(r.drop_last(), j, x);
    }
}

pub proof fn lemma_total_update(r: Seq<EdgeView>, j: int, x: EdgeView)
    requires
        0 <= j < r.len(),
    ensures
        total_count(r.update(j, x)) == total_count(r) - r[j].count + x.count,
    decreases r.len(),
{
    if j == r.len() - 1 {
        assert(r.update(j, x).drop_last() =~= r.drop_last());
    } else {
        assert(r.update(j, x).drop_last() =~= r.drop_last().update(j, x));
        lemma_total_update(r.drop_last(), j, x);
    }
}

proof fn lemma_edge_views_insert(v: Seq<Edge>, j: int, e: Edge)
    requires
        0 <= j <= v.len(),
    ensures
        edge_views(v.insert(j, e)) == edge_views(v).insert(j, e@),
{
    assert(edge_views(v.insert(j, e)) =~= edge_views(v).insert(j, e@));
}

proof fn lemma_edge_views_update(v: Seq<Edge>, j: int, e: Edge)
    requires
        0 <= j < v.len(),
    ensures
        edge_views(v.update(j, e)) == edge_views(v).update(j, e@),
{
    assert(edge_views(v.update(j, e)) =~= edge_views(v).update(j, e@));
}

proof fn lemma_merged_push_other(s: Seq<EdgeView>, e: EdgeView, k: EdgeKey)
    requires
        has_key(s, k),
        ekey(e) != k,
    ensures
        merged(s.push(e), k) == merged(s, k),
{
    lemma_push_facts(s, e, k);
}

/// One step of merging: `e` joins the merged connection at `j`, which has
/// its key.
proof fn lemma_dedup_merge_step(s: Seq<EdgeView>, e: EdgeView, r: Seq<EdgeView>, j: int, m: EdgeView)
    requires
        deduped(s, r),
        0 <= j < r.len(),
        ekey(r[j]) == ekey(e),
        key_sum(s.push(e), ekey(e)) <= u32::MAX,
        m.src == r[j].src,
        m.dst == r[j].dst,
        m.protocol == r[j].protocol,
        m.src_port == r[j].src_port,
        m.dst_port == r[j].dst_port,
        m.state == r[j].state,
        m.count == r[j].count + e.count,
    ensures
        deduped(s.push(e), r.update(j, m)),
{
    let ke = ekey(e);
    let r2 = r.update(j, m);
    let s2 = s.push(e);
    lemma_push_facts(s, e, ke);
    assert(has_key(r, ke));
    assert(has_key(s, ke));
    assert forall|k: EdgeKey| #[trigger] has_key(r2, k) == has_key(s2, k) by {
        lemma_push_facts(s, e, k);
        if has_key(r2, k) {
            let q = choose|q: int| 0 <= q < r2.len() && ekey(r2[q]) == k;
            assert(ekey(r[q]) == k);
        }
        if has_key(r, k) {
            let q = choose|q: int| 0 <= q < r.len() && ekey(r[q]) == k;
            assert(ekey(r2[q]) == k);
        }
    }
    assert forall|q: int| 0 <= q < r2.len() implies #[trigger] r2[q] == merged(s2, ekey(r2[q])) by {
        if q != j {
            let k = ekey(r[q]);
            if q < j {
                assert(key_lt(ekey(r[q]), ekey(r[j])));
            } else {
                assert(key_lt(ekey(r[j]), ekey(r[q])));
            }
            lemma_key_lt_irreflexive(ke);
            assert(has_key(r, k));
            lemma_merged_push_other(s, e, k);
        }
    }
    assert forall|a: int, b: int| 0 <= a < b < r2.len() implies key_lt(
        ekey(#[trigger] r2[a]),
        ekey(#[trigger] r2[b]),
    ) by {
        assert(key_lt(ekey(r[a]), ekey(r[b])));
    }
}

/// One step of merging: `e` has a new key and is inserted at `j`, after the
/// smaller keys and before the greater ones.
proof fn lemma_dedup_insert_step(s: Seq<EdgeView>, e: EdgeView, r: Seq<EdgeView>, j: int)
    requires
        deduped(s, r),
        0 <= j <= r.len(),
        forall|m: int| 0 <= m < j ==> key_lt(ekey(#[trigger] r[m]), ekey(e)),
        j < r.len() ==> key_lt(ekey(e), ekey(r[j])),
    ensures
        deduped(s.push(e), r.insert(j, e)),
        !has_key(s, ekey(e)),
{
    let ke = ekey(e);
    let r2 = r.insert(j, e);
    let s2 = s.push(e);
    lemma_key_lt_irreflexive(ke);
    assert forall|q: int| 0 <= q < r.len() implies ekey(#[trigger] r[q]) != ke by {
        if q < j {
            assert(key_lt(ekey(r[q]), ke));
        } else if q > j {
            assert(key_lt(ekey(r[j]), ekey(r[q])));
            lemma_key_lt_transitive(ke, ekey(r[j]), ekey(r[q]));
        }
    }
    assert(!has_key(r, ke));
    assert(!has_key(s, ke));
    lemma_key_sum_absent(s, ke);
    lemma_push_facts(s, e, ke);
    assert forall|a: int, b: int| 0 <= a < b < r2.len() implies key_lt(
        ekey(#[trigger] r2[a]),
        ekey(#[trigger] r2[b]),
    ) by {
        if a < j && b == j {
        } else if a < j && b > j {
            assert(r2[b] == r[b - 1]);
            if b - 1 > j {
                assert(key_lt(ekey(r[a]), ekey(r[b - 1])));
            }
        } else if a == j {
            assert(r2[b] == r[b - 1]);
            if b - 1 > j {
                assert(key_lt(ekey(r[j]), ekey(r[b - 1])));
                lemma_key_lt_transitive(ke, ekey(r[j]), ekey(r[b - 1]));
            }
        } else if a > j {
            assert(r2[a] == r[a - 1]);
            assert(r2[b] == r[b - 1]);
            assert(key_lt(ekey(r[a - 1]), ekey(r[b - 1])));
        }
    }
    assert forall|k: EdgeKey| #[trigger] has_key(r2, k) == has_key(s2, k) by {
        lemma_push_facts(s, e, k);
        if has_key(r2, k) {
            let q = choose|q: int| 0 <= q < r2.len() && ekey(r2[q]) == k;
            if q < j {
                assert(ekey(r[q]) == k);
            } else if q > j {
                assert(ekey(r[q - 1]) == k);
            }
        }
        if has_key(r, k) {
            let q = choose|q: int| 0 <= q < r.len() && ekey(r[q]) == k;
            if q < j {
                assert(ekey(r2[q]) == k);
            } else {
                assert(ekey(r2[q + 1]) == k);
            }
        }
        if k == ke {
            assert(ekey(r2[j]) == k);
        }
    }
    assert forall|q: int| 0 <= q < r2.len() implies #[trigger] r2[q] == merged(s2, ekey(r2[q])) by {
        if q != j {
            let q0 = if q < j {
                q
            } else {
                q - 1
            };
            assert(r2[q] == r[q0]);
            let k = ekey(r[q0]);
            assert(has_key(r, k));
            lemma_merged_push_other(s, e, k);
        }
    }
}

/// Merges the connections that share source, destination, protocol and
/// destination port: one connection per key, the first of them with the
/// sum of their counts, sorted by key. The total count is kept.
pub fn dedup_edges(edges: Vec<Edge>) -> (r: Vec<Edge>)
    requires
        counts_fit(edge_views(edges@)),
    ensures
        deduped(edge_views(edges@), edge_views(r@)),
        total_count(edge_views(r@)) == total_count(edge_views(edges@)),
        r@.len() <= edges@.len(),
{
    let ghost s = edge_views(edges@);
    let mut r: Vec<Edge> = Vec::new();
    let mut i: usize = 0;
    assert(s.take(0) =~= Seq::<EdgeView>::empty());
    assert(edge_views(r@) =~= Seq::<EdgeView>::empty());
    while i < edges.len()
        invariant
            i <= edges@.len(),
            s == edge_views(edges@),
            counts_fit(s),
            deduped(s.take(i as int), edge_views(r@)),
            total_count(edge_views(r@)) == total_count(s.take(i as int)),
            r@.len() <= i,
        decreases edges@.len() - i,
    {
        let e = &edges[i];
        let ghost si = s.take(i as int);
        let ghost rv = edge_views(r@);
        let ghost ke = ekey(e@);
        assert(s.take(i + 1) =~= si.push(e@));
        proof {
            lemma_key_sum_prefix(s, i + 1, ke);
            assert(key_sum(s, ke) <= u32::MAX);
            lemma_push_facts(si, e@, ke);
        }
        let mut j: usize = 0;
        while j < r.len() && compare_edge_keys(&r[j], e) < 0
            invariant
                j <= r@.len(),
                rv == edge_views(r@),
                ke == ekey(e@),
                forall|m: int| 0 <= m < j ==> key_lt(ekey(#[trigger] rv[m]), ke),
            decreases r@.len() - j,
        {
            j += 1;
        }
        let c: i8 = if j < r.len() {
            compare_edge_keys(&r[j], e)
        } else {
            1
        };
        let ghost old_r = r@;
        if c == 0 {
            proof {
                assert(has_key(rv, ke));
                assert(rv[j as int] == merged(si, ke));
            }
            let sum: u32 = r[j].count + e.count;
            let m = Edge {
                src: r[j].src.clone(),
                dst: r[j].dst.clone(),
                protocol: r[j].protocol.clone(),
                src_port: r[j].src_port,
                dst_port: r[j].dst_port,
                state: crate::data_manager::copy_opt_string(&r[j].state),
                count: sum,
            };
            r.set(j, m);
            proof {
                lemma_edge_views_update(old_r, j as int, m);
                lemma_total_update(rv, j as int, m@);
                lemma_dedup_merge_step(si, e@, rv, j as int, m@);
            }
        } else {
            let x = e.copy();
            r.insert(j, x);
            proof {
                lemma_edge_views_insert(old_r, j as int, x);
                lemma_total_insert(rv, j as int, x@);
                lemma_dedup_insert_step(si, e@, rv, j as int);
            }
        }
        i += 1;
    }
    assert(s.take(edges@.len() as int) =~= s);
    r
}

/// Whether no key's count sum overflows a `u32`, which merging requires.
pub fn edge_counts_fit(edges: &Vec<Edge>) -> (r: bool)
    ensures
        r == counts_fit(edge_views(edges@)),
{
    let ghost s = edge_views(edges@);
    let mut i: usize = 0;
    while i < edges.len()
        invariant
            i <= edges@.len(),
            s == edge_views(edges@),
            forall|q: int| 0 <= q < i ==> key_sum(s, ekey(#[trigger] s[q])) <= u32::MAX,
        decreases edges@.len() - i,
    {
        let ghost k = ekey(s[i as int]);
        let mut sum: u64 = 0;
        let mut j: usize = 0;
        assert(s.take(0) =~= Seq::<EdgeView>::empty());
        while j < edges.len()
            invariant
                i < edges@.len(),
                j <= edges@.len(),
                s == edge_views(edges@),
                k == ekey(s[i as int]),
                sum == key_sum(s.take(j as int), k),
                sum <= u32::MAX,
            decreases edges@.len() - j,
        {
            assert(s.take(j + 1) =~= s.take(j as int).push(s[j as int]));
            proof {
                lemma_push_facts(s.take(j as int), s[j as int], k);
            }
            if compare_edge_keys(&edges[j], &edges[i]) == 0 {
                sum = sum + edges[j].count as u64;
                if sum > 0xffff_ffff {
                    proof {
                        lemma_key_sum_prefix(s, j + 1, k);
                    }
                    return false;
                }
            }
            j += 1;
        }
        assert(s.take(edges@.len() as int) =~= s);
        i += 1;
    }
    assert forall|k: EdgeKey| #[trigger] key_sum(s, k) <= u32::MAX by {
        if has_key(s, k) {
            let q = choose|q: int| 0 <= q < s.len() && ekey(s[q]) == k;
            assert(key_sum(s, ekey(s[q])) <= u32::MAX);
        } else {
            lemma_key_sum_absent(s, k);
        }
    }
    true
}

// ───────────────────────────── nodes of the graph ──────────────────────────

/// The addresses of a sequence of nodes.
pub open spec fn node_ips(ns: Seq<NodeView>) -> Seq<Seq<char>> {
    ns.map_values(|n: NodeView| n.ip)
}

/// A node marked local when its address is the local one.
pub open spec fn mark_local(n: NodeView, local: Seq<char>) -> NodeView {
    NodeView {
        ip: n.ip,
        hostname: n.hostname,
        ports: n.ports,
        is_local: n.is_local || n.ip == local,
        mac: n.mac,
        interface: n.interface,
    }
}

pub open spec fn marked(ns: Seq<NodeView>, local: Seq<char>) -> Seq<NodeView> {
    ns.map_values(|n: NodeView| mark_local(n, local))
}

/// The node added for a connection endpoint that no scanned node has.
pub open spec fn placeholder(ip: Seq<char>, local: Seq<char>) -> NodeView {
    NodeView {
        ip: ip,
        hostname: None,
        ports: Seq::empty(),
        is_local: ip == local,
        mac: None,
        interface: None,
    }
}

/// `acc` with a placeholder for `ip`, unless `known` or `acc` has that address.
pub open spec fn add_placeholder(
    known: Seq<Seq<char>>,
    acc: Seq<NodeView>,
    ip: Seq<char>,
    local: Seq<char>,
) -> Seq<NodeView> {
    if known.contains(ip) || node_ips(acc).contains(ip) {
        acc
    } else {
        acc.push(placeholder(ip, local))
    }
}

/// The placeholder nodes for the endpoints of `es` that `known` lacks, in
/// order of first appearance (source before destination), each once.
pub open spec fn placeholders(known: Seq<Seq<char>>, es: Seq<EdgeView>, local: Seq<char>) -> Seq<NodeView>
    decreases es.len(),
{
    if es.len() == 0 {
        Seq::empty()
    } else {
        let p = placeholders(known, es.drop_last(), local);
        add_placeholder(known, add_placeholder(known, p, es.last().src, local), es.last().dst, local)
    }
}

/// The number of connections of protocol `p`.
pub open spec fn count_protocol(es: Seq<EdgeView>, p: Seq<char>) -> nat
    decreases es.len(),
{
    if es.len() == 0 {
        0
    } else {
        count_protocol(es.drop_last(), p) + if es.last().protocol == p {
            1nat
        } else {
            0
        }
    }
}

pub proof fn lemma_count_protocol_bound(es: Seq<EdgeView>, p: Seq<char>)
    ensures
        count_protocol(es, p) <= es.len(),
    decreases es.len(),
{
    if es.len() > 0 {
        lemma_count_protocol_bound(es.drop_last(), p);
    }
}

pub proof fn lemma_count_two_protocols(es: Seq<EdgeView>, p: Seq<char>, q: Seq<char>)
    requires
        p != q,
    ensures
        count_protocol(es, p) + count_protocol(es, q) <= es.len(),
    decreases es.len(),
{
    if es.len() > 0 {
        lemma_count_two_protocols(es.drop_last(), p, q);
    }
}

/// The summary's counts agree with the graph: its totals are the numbers of
/// nodes and connections, and TCP plus UDP connections are at most all.
pub open spec fn summary_consistent(g: GraphView) -> bool {
    &&& g.summary.total_nodes == g.nodes.len()
    &&& g.summary.total_edges == g.edges.len()
    &&& g.summary.tcp_connections + g.summary.udp_connections <= g.summary.total_edges
}

proof fn lemma_add_placeholder(known: Seq<Seq<char>>, acc: Seq<NodeView>, ip: Seq<char>, local: Seq<char>)
    ensures
        add_placeholder(known, acc, ip, local).len() <= acc.len() + 1,
        known.contains(ip) || node_ips(add_placeholder(known, acc, ip, local)).contains(ip),
        forall|x: Seq<char>| #[trigger] node_ips(acc).contains(x) ==> node_ips(add_placeholder(known, acc, ip, local)).contains(x),
{
    let a2 = add_placeholder(known, acc, ip, local);
    if a2 != acc {
        assert(node_ips(a2) =~= node_ips(acc).push(ip));
        assert(node_ips(a2)[acc.len() as int] == ip);
        assert forall|x: Seq<char>| #[trigger] node_ips(acc).contains(x) implies node_ips(a2).contains(x) by {
            let q = choose|q: int| 0 <= q < node_ips(acc).len() && node_ips(acc)[q] == x;
            assert(node_ips(a2)[q] == x);
        }
    }
}

/// Every endpoint of `es` is known or has a placeholder, and there are at
/// most two placeholders per connection.
pub proof fn lemma_placeholders_cover(known: Seq<Seq<char>>, es: Seq<EdgeView>, local: Seq<char>)
    ensures
        placeholders(known, es, local).len() <= 2 * es.len(),
        forall|i: int| 0 <= i < es.len() ==> (known.contains(#[trigger] es[i].src) || node_ips(placeholders(known, es, local)).contains(es[i].src)),
        forall|i: int| 0 <= i < es.len() ==> (known.contains(#[trigger] es[i].dst) || node_ips(placeholders(known, es, local)).contains(es[i].dst)),
    decreases es.len(),
{
    if es.len() > 0 {
        let p = placeholders(known, es.drop_last(), local);
        let e = es.last();
        let p1 = add_placeholder(known, p, e.src, local);
        lemma_placeholders_cover(known, es.drop_last(), local);
        lemma_add_placeholder(known, p, e.src, local);
        lemma_add_placeholder(known, p1, e.dst, local);
        assert forall|i: int| 0 <= i < es.len() implies (known.contains(#[trigger] es[i].src) || node_ips(placeholders(known, es, local)).contains(es[i].src)) by {
            if i < es.len() - 1 {
                assert(es.drop_last()[i] == es[i]);
            }
        }
        assert forall|i: int| 0 <= i < es.len() implies (known.contains(#[trigger] es[i].dst) || node_ips(placeholders(known, es, local)).contains(es[i].dst)) by {
            if i < es.len() - 1 {
                assert(es.drop_last()[i] == es[i]);
            }
        }
    }
}

proof fn lemma_add_placeholder_distinct(known: Seq<Seq<char>>, acc: Seq<NodeView>, ip: Seq<char>, local: Seq<char>)
    requires
        forall|a: int, b: int| 0 <= a < b < acc.len() ==> (#[trigger] acc[a]).ip != (#[trigger] acc[b]).ip,
        forall|i: int| 0 <= i < acc.len() ==> !known.contains((#[trigger] acc[i]).ip),
    ensures
        ({
            let r = add_placeholder(known, acc, ip, local);
            &&& forall|a: int, b: int| 0 <= a < b < r.len() ==> (#[trigger] r[a]).ip != (#[trigger] r[b]).ip
            &&& forall|i: int| 0 <= i < r.len() ==> !known.contains((#[trigger] r[i]).ip)
        }),
{
    let r = add_placeholder(known, acc, ip, local);
    if !(known.contains(ip) || node_ips(acc).contains(ip)) {
        assert forall|a: int, b: int| 0 <= a < b < r.len() implies (#[trigger] r[a]).ip != (#[trigger] r[b]).ip by {
            if b == acc.len() {
                assert(node_ips(acc)[a] == acc[a].ip);
            }
        }
    }
}

/// The placeholders have pairwise distinct addresses, none of them known.
proof fn lemma_placeholders_distinct(known: Seq<Seq<char>>, es: Seq<EdgeView>, local: Seq<char>)
    ensures
        distinct_ips(placeholders(known, es, local)),
        forall|i: int| 0 <= i < placeholders(known, es, local).len() ==> !known.contains(
            (#[trigger] placeholders(known, es, local)[i]).ip,
        ),
    decreases es.len(),
{
    if es.len() > 0 {
        let p = placeholders(known, es.drop_last(), local);
        let e = es.last();
        lemma_placeholders_distinct(known, es.drop_last(), local);
        lemma_add_placeholder_distinct(known, p, e.src, local);
        lemma_add_placeholder_distinct(known, add_placeholder(known, p, e.src, local), e.dst, local);
    }
}

/// Whether some node has address `ip`.
pub fn contains_ip(ns: &Vec<Node>, ip: &str) -> (r: bool)
    ensures
        r == node_ips(node_views(ns@)).contains(ip@),
{
    let ghost ips = node_ips(node_views(ns@));
    let mut i: usize = 0;
    while i < ns.len()
        invariant
            i <= ns@.len(),
            ips == node_ips(node_views(ns@)),
            forall|q: int| 0 <= q < i ==> ips[q] != ip@,
        decreases ns@.len() - i,
    {
        if str_eq(ns[i].ip.as_str(), ip) {
            assert(ips[i as int] == ip@);
            return true;
        }
        i += 1;
    }
    false
}

/// The nodes with the one at the local address marked local.
pub fn mark_local_nodes(nodes: &Vec<Node>, local_ip: &str) -> (r: Vec<Node>)
    ensures
        node_views(r@) == marked(node_views(nodes@), local_ip@),
{
    let mut r: Vec<Node> = Vec::new();
    let mut i: usize = 0;
    while i < nodes.len()
        invariant
            i <= nodes@.len(),
            node_views(r@) == marked(node_views(nodes@), local_ip@).take(i as int),
        decreases nodes@.len() - i,
    {
        let mut n = nodes[i].copy();
        if str_eq(n.ip.as_str(), local_ip) {
            n.is_local = true;
        }
        proof {
            lemma_node_views_push(r@, n);
        }
        r.push(n);
        assert(marked(node_views(nodes@), local_ip@).take(i + 1) =~= marked(
            node_views(nodes@),
            local_ip@,
        ).take(i as int).push(n@));
        i += 1;
    }
    assert(marked(node_views(nodes@), local_ip@).take(nodes@.len() as int) =~= marked(
        node_views(nodes@),
        local_ip@,
    ));
    r
}

fn add_placeholder_node(known: &Vec<Node>, acc: &mut Vec<Node>, ip: &str, local_ip: &str)
    ensures
        node_views(final(acc)@) == add_placeholder(
            node_ips(node_views(known@)),
            node_views(old(acc)@),
            ip@,
            local_ip@,
        ),
{
    if !contains_ip(known, ip) && !contains_ip(acc, ip) {
        let n = Node {
            ip: ip.to_owned(),
            hostname: None,
            ports: Vec::new(),
            is_local: str_eq(ip, local_ip),
            mac: None,
            interface: None,
        };
        proof {
            lemma_node_views_push(acc@, n);
        }
        acc.push(n);
    }
}

/// The placeholder nodes for the endpoints of `es` missing from `known`.
pub fn placeholder_nodes(known: &Vec<Node>, es: &Vec<Edge>, local_ip: &str) -> (r: Vec<Node>)
    ensures
        node_views(r@) == placeholders(node_ips(node_views(known@)), edge_views(es@), local_ip@),
{
    let ghost kn = node_ips(node_views(known@));
    let ghost ev = edge_views(es@);
    let mut acc: Vec<Node> = Vec::new();
    let mut i: usize = 0;
    assert(node_views(acc@) =~= Seq::<NodeView>::empty());
    while i < es.len()
        invariant
            i <= es@.len(),
            kn == node_ips(node_views(known@)),
            ev == edge_views(es@),
            node_views(acc@) == placeholders(kn, ev.take(i as int), local_ip@),
        decreases es@.len() - i,
    {
        add_placeholder_node(known, &mut acc, es[i].src.as_str(), local_ip);
        add_placeholder_node(known, &mut acc, es[i].dst.as_str(), local_ip);
        assert(ev.take(i + 1).drop_last() =~= ev.take(i as int));
        i += 1;
    }
    assert(ev.take(es@.len() as int) =~= ev);
    acc
}

/// The number of connections whose protocol is `p`.
pub fn count_protocol_exec(es: &Vec<Edge>, p: &str) -> (r: usize)
    ensures
        r == count_protocol(edge_views(es@), p@),
{
    let ghost ev = edge_views(es@);
    let mut n: usize = 0;
    let mut i: usize = 0;
    while i < es.len()
        invariant
            i <= es@.len(),
            ev == edge_views(es@),
            n == count_protocol(ev.take(i as int), p@),
            n <= i,
        decreases es@.len() - i,
    {
        assert(ev.take(i + 1).drop_last() =~= ev.take(i as int));
        if str_eq(es[i].protocol.as_str(), p) {
            n += 1;
        }
        i += 1;
    }
    assert(ev.take(es@.len() as int) =~= ev);
    n
}

// ───────────────────────────── building the graph ──────────────────────────

#[verifier::external_type_specification]
#[verifier::external_body]
pub struct ExInstant(std::time::Instant);

/// Calls `std::time::Instant::now`. Nothing is promised of the reading.
#[verifier::external_body]
fn instant_now() -> std::time::Instant {
    std::time::Instant::now()
}

/// Calls `std::time::Instant::elapsed`. Nothing is promised of the reading.
#[verifier::external_body]
fn instant_elapsed(start: &std::time::Instant) -> std::time::Duration {
    start.elapsed()
}

/// Calls `std::time::Duration::as_millis`. Nothing is stated of the value:
/// a `Duration` is opaque here.
#[verifier::external_body]
fn duration_as_millis(d: &std::time::Duration) -> u128 {
    d.as_millis()
}

/// Calls `chrono::Utc::now` and formats it with `to_rfc3339`. The text is
/// the current time, so what it says is not stated; chrono writes it with
/// ASCII digits and separators, at least `YYYY-MM-DDTHH:MM:SS`, and that is.
#[verifier::external_body]
fn now_rfc3339() -> (r: String)
    ensures
        r@.len() >= 19,
        is_ascii_seq(r@),
{
    chrono::Utc::now().to_rfc3339()
}

// ───────────────────────────── merging nodes ───────────────────────────────

/// `a` followed by the ports of `b` that are not yet there, in order.
pub open spec fn union_ports(a: Seq<u16>, b: Seq<u16>) -> Seq<u16>
    decreases b.len(),
{
    if b.len() == 0 {
        a
    } else {
        let u = union_ports(a, b.drop_last());
        if u.contains(b.last()) {
            u
        } else {
            u.push(b.last())
        }
    }
}

/// Node `a` with the information of node `n` at the same address added: the
/// ports united, the host name, MAC and interface of `a` where it has them,
/// else those of `n`, and local when either is.
pub open spec fn absorb(a: NodeView, n: NodeView) -> NodeView {
    NodeView {
        ip: a.ip,
        hostname: if a.hostname is Some {
            a.hostname
        } else {
            n.hostname
        },
        ports: union_ports(a.ports, n.ports),
        is_local: a.is_local || n.is_local,
        mac: if a.mac is Some {
            a.mac
        } else {
            n.mac
        },
        interface: if a.interface is Some {
            a.interface
        } else {
            n.interface
        },
    }
}

/// The first position of a node with address `ip`, or -1.
pub open spec fn ip_index(ns: Seq<NodeView>, ip: Seq<char>) -> int
    decreases ns.len(),
{
    if ns.len() == 0 {
        -1
    } else {
        let r = ip_index(ns.drop_last(), ip);
        if r >= 0 {
            r
        } else if ns.last().ip == ip {
            ns.len() - 1
        } else {
            -1
        }
    }
}

/// The nodes with those of one address merged into one, in order of first
/// appearance (see `absorb`).
pub open spec fn merge_nodes(ns: Seq<NodeView>) -> Seq<NodeView>
    decreases ns.len(),
{
    if ns.len() == 0 {
        Seq::empty()
    } else {
        let m = merge_nodes(ns.drop_last());
        let n = ns.last();
        let j = ip_index(m, n.ip);
        if j >= 0 {
            m.update(j, absorb(m[j], n))
        } else {
            m.push(n)
        }
    }
}

/// No two nodes share an address.
pub open spec fn distinct_ips(ns: Seq<NodeView>) -> bool {
    forall|a: int, b: int| 0 <= a < b < ns.len() ==> (#[trigger] ns[a]).ip != (#[trigger] ns[b]).ip
}

pub proof fn lemma_ip_index(ns: Seq<NodeView>, ip: Seq<char>)
    ensures
        -1 <= ip_index(ns, ip) < ns.len(),
        ip_index(ns, ip) >= 0 ==> ns[ip_index(ns, ip)].ip == ip,
        forall|q: int| 0 <= q < ns.len() && (ip_index(ns, ip) < 0 || q < ip_index(ns, ip)) ==> (
        #[trigger] ns[q]).ip != ip,
    decreases ns.len(),
{
    if ns.len() > 0 {
        let p = ns.drop_last();
        lemma_ip_index(p, ip);
        assert forall|q: int| 0 <= q < ns.len() && (ip_index(ns, ip) < 0 || q < ip_index(ns, ip)) implies (
        #[trigger] ns[q]).ip != ip by {
            if q < p.len() {
                assert(p[q] == ns[q]);
            }
        }
        if ip_index(ns, ip) >= 0 && ip_index(p, ip) >= 0 {
            assert(p[ip_index(p, ip)] == ns[ip_index(p, ip)]);
        }
    }
}

pub proof fn lemma_merge_nodes(ns: Seq<NodeView>)
    ensures
        merge_nodes(ns).len() <= ns.len(),
        distinct_ips(merge_nodes(ns)),
        forall|x: Seq<char>| #[trigger] node_ips(merge_nodes(ns)).contains(x) == node_ips(ns).contains(x),
    decreases ns.len(),
{
    if ns.len() > 0 {
        let p = ns.drop_last();
        let n = ns.last();
        let m = merge_nodes(p);
        lemma_merge_nodes(p);
        lemma_ip_index(m, n.ip);
        let j = ip_index(m, n.ip);
        let r = merge_nodes(ns);
        assert forall|x: Seq<char>| #[trigger] node_ips(r).contains(x) == node_ips(ns).contains(x) by {
            if node_ips(r).contains(x) {
                let q = choose|q: int| 0 <= q < node_ips(r).len() && node_ips(r)[q] == x;
                if q < m.len() {
                    assert(r[q].ip == m[q].ip);
                    assert(node_ips(m)[q] == x);
                    assert(node_ips(m).contains(x));
                    assert(node_ips(p).contains(x));
                    let t = choose|t: int| 0 <= t < node_ips(p).len() && node_ips(p)[t] == x;
                    assert(node_ips(ns)[t] == x);
                } else {
                    assert(node_ips(ns)[ns.len() - 1] == x);
                }
            }
            if node_ips(ns).contains(x) {
                let t = choose|t: int| 0 <= t < node_ips(ns).len() && node_ips(ns)[t] == x;
                if t < p.len() {
                    assert(node_ips(p)[t] == x);
                    assert(node_ips(m).contains(x));
                    let q = choose|q: int| 0 <= q < node_ips(m).len() && node_ips(m)[q] == x;
                    assert(r[q].ip == m[q].ip);
                    assert(node_ips(r)[q] == x);
                } else if j >= 0 {
                    assert(node_ips(r)[j] == x);
                } else {
                    assert(node_ips(r)[m.len() as int] == x);
                }
            }
        }
        assert forall|a: int, b: int| 0 <= a < b < r.len() implies (#[trigger] r[a]).ip != (
        #[trigger] r[b]).ip by {
            if j < 0 && b == m.len() {
                assert(r[a] == m[a]);
            } else {
                assert(r[a].ip == m[a].ip && r[b].ip == m[b].ip);
            }
        }
    }
}

proof fn lemma_union_ports(a: Seq<u16>, b: Seq<u16>, x: u16)
    ensures
        union_ports(a, b).contains(x) == (a.contains(x) || b.contains(x)),
        a.is_prefix_of(union_ports(a, b)),
    decreases b.len(),
{
    if b.len() > 0 {
        let d = b.drop_last();
        lemma_union_ports(a, d, x);
        let u = union_ports(a, d);
        if d.contains(x) {
            let i = choose|i: int| 0 <= i < d.len() && d[i] == x;
            assert(b[i] == x);
        }
        if b.contains(x) && !d.contains(x) {
            let i = choose|i: int| 0 <= i < b.len() && b[i] == x;
            if i < b.len() - 1 {
                assert(d[i] == b[i]);
            }
        }
        if !u.contains(b.last()) {
            if u.contains(x) {
                let i = choose|i: int| 0 <= i < u.len() && u[i] == x;
                assert(u.push(b.last())[i] == x);
            }
            if x == b.last() {
                assert(u.push(b.last())[u.len() as int] == x);
            }
            if u.push(b.last()).contains(x) && x != b.last() {
                let i = choose|i: int| 0 <= i < u.len() + 1 && u.push(b.last())[i] == x;
                assert(u[i] == x);
            }
        }
        if b.last() == x {
            assert(b[b.len() - 1] == x);
        }
    }
}

/// Merging nodes by address keeps every port: each port of an input node is
/// a port of the merged node at its address, and a merged node has no port
/// that no input node at its address had.
pub proof fn law_merge_unites_ports(ns: Seq<NodeView>)
    ensures
        forall|i: int, x: u16|
            0 <= i < ns.len() && #[trigger] ns[i].ports.contains(x) ==> exists|j: int|
                0 <= j < merge_nodes(ns).len() && (#[trigger] merge_nodes(ns)[j]).ip == ns[i].ip
                    && merge_nodes(ns)[j].ports.contains(x),
        forall|j: int, x: u16|
            0 <= j < merge_nodes(ns).len() && #[trigger] merge_nodes(ns)[j].ports.contains(x)
                ==> exists|i: int| 0 <= i < ns.len() && (#[trigger] ns[i]).ip == merge_nodes(ns)[j].ip
                    && ns[i].ports.contains(x),
    decreases ns.len(),
{
    if ns.len() > 0 {
        let p = ns.drop_last();
        let n = ns.last();
        let m = merge_nodes(p);
        let r = merge_nodes(ns);
        law_merge_unites_ports(p);
        lemma_ip_index(m, n.ip);
        let j0 = ip_index(m, n.ip);
        assert forall|i: int, x: u16|
            0 <= i < ns.len() && #[trigger] ns[i].ports.contains(x) implies exists|j: int|
                0 <= j < r.len() && (#[trigger] r[j]).ip == ns[i].ip && r[j].ports.contains(x) by {
            if i < p.len() {
                assert(p[i] == ns[i]);
                let j = choose|j: int| 0 <= j < m.len() && (#[trigger] m[j]).ip == p[i].ip && m[j].ports.contains(x);
                if j0 >= 0 && j == j0 {
                    lemma_union_ports(m[j].ports, n.ports, x);
                    assert(r[j].ip == ns[i].ip && r[j].ports.contains(x));
                } else {
                    assert(r[j] == m[j]);
                }
            } else if j0 >= 0 {
                lemma_union_ports(m[j0].ports, n.ports, x);
                assert(r[j0].ip == ns[i].ip && r[j0].ports.contains(x));
            } else {
                assert(r[m.len() as int] == n);
            }
        }
        assert forall|j: int, x: u16|
            0 <= j < r.len() && #[trigger] r[j].ports.contains(x) implies exists|i: int|
                0 <= i < ns.len() && (#[trigger] ns[i]).ip == r[j].ip && ns[i].ports.contains(x) by {
            if j0 >= 0 && j == j0 {
                lemma_union_ports(m[j].ports, n.ports, x);
                if m[j].ports.contains(x) {
                    let i = choose|i: int| 0 <= i < p.len() && (#[trigger] p[i]).ip == m[j].ip && p[i].ports.contains(x);
                    assert(ns[i] == p[i]);
                } else {
                    assert(ns[ns.len() - 1] == n);
                }
            } else if j < m.len() {
                assert(r[j] == m[j]);
                let i = choose|i: int| 0 <= i < p.len() && (#[trigger] p[i]).ip == m[j].ip && p[i].ports.contains(x);
                assert(ns[i] == p[i]);
            } else {
                assert(ns[ns.len() - 1] == n);
            }
        }
    }
}

/// The first node of `ns` at address `ip`, if any.
fn find_ip(ns: &Vec<Node>, ip: &str) -> (r: Option<usize>)
    ensures
        match r {
            Some(j) => j == ip_index(node_views(ns@), ip@),
            None => ip_index(node_views(ns@), ip@) < 0,
        },
{
    let ghost nv = node_views(ns@);
    let mut i: usize = 0;
    while i < ns.len()
        invariant
            i <= ns@.len(),
            nv == node_views(ns@),
            forall|q: int| 0 <= q < i ==> (#[trigger] nv[q]).ip != ip@,
        decreases ns@.len() - i,
    {
        if str_eq(ns[i].ip.as_str(), ip) {
            assert(nv[i as int].ip == ip@);
            proof {
                lemma_ip_index(nv, ip@);
                let k = ip_index(nv, ip@);
                if k >= 0 && k < i {
                    assert(nv[k].ip == ip@);
                }
            }
            return Some(i);
        }
        i += 1;
    }
    proof {
        lemma_ip_index(nv, ip@);
        let k = ip_index(nv, ip@);
        if k >= 0 {
            assert(nv[k].ip == ip@);
        }
    }
    None
}

/// The ports of `a` and then those of `b` not yet among them.
fn union_ports_exec(a: &Vec<u16>, b: &Vec<u16>) -> (r: Vec<u16>)
    ensures
        r@ == union_ports(a@, b@),
{
    let mut r = a.clone();
    let mut i: usize = 0;
    assert(b@.take(0) =~= Seq::<u16>::empty());
    while i < b.len()
        invariant
            i <= b@.len(),
            r@ == union_ports(a@, b@.take(i as int)),
        decreases b@.len() - i,
    {
        let p = b[i];
        assert(b@.take(i + 1).drop_last() =~= b@.take(i as int));
        let mut found = false;
        let mut k: usize = 0;
        while k < r.len()
            invariant
                k <= r@.len(),
                found == exists|q: int| 0 <= q < k && r@[q] == p,
            decreases r@.len() - k,
        {
            if r[k] == p {
                found = true;
            }
            k += 1;
        }
        if !found {
            r.push(p);
        }
        i += 1;
    }
    assert(b@.take(b@.len() as int) =~= b@);
    r
}

fn copy_opt(a: &Option<String>, b: &Option<String>) -> (r: Option<String>)
    ensures
        opt_view(r) == if opt_view(*a) is Some {
            opt_view(*a)
        } else {
            opt_view(*b)
        },
{
    match a {
        Some(_) => copy_opt_string(a),
        None => copy_opt_string(b),
    }
}

/// Node `a` with node `n` at the same address added (see `absorb`).
fn absorb_exec(a: &Node, n: &Node) -> (r: Node)
    ensures
        r@ == absorb(a@, n@),
{
    Node {
        ip: a.ip.clone(),
        hostname: copy_opt(&a.hostname, &n.hostname),
        ports: union_ports_exec(&a.ports, &n.ports),
        is_local: a.is_local || n.is_local,
        mac: copy_opt(&a.mac, &n.mac),
        interface: copy_opt(&a.interface, &n.interface),
    }
}

/// The nodes with those of one address merged into one, ports united (see
/// `merge_nodes`).
pub fn merge_nodes_exec(nodes: &Vec<Node>) -> (r: Vec<Node>)
    ensures
        node_views(r@) == merge_nodes(node_views(nodes@)),
{
    let ghost nv = node_views(nodes@);
    let mut r: Vec<Node> = Vec::new();
    let mut i: usize = 0;
    assert(nv.take(0) =~= Seq::<NodeView>::empty());
    assert(node_views(r@) =~= Seq::<NodeView>::empty());
    while i < nodes.len()
        invariant
            i <= nodes@.len(),
            nv == node_views(nodes@),
            node_views(r@) == merge_nodes(nv.take(i as int)),
        decreases nodes@.len() - i,
    {
        let n = &nodes[i];
        assert(nv.take(i + 1).drop_last() =~= nv.take(i as int));
        assert(nv.take(i + 1).last() == n@);
        proof {
            lemma_ip_index(node_views(r@), n@.ip);
        }
        match find_ip(&r, n.ip.as_str()) {
            Some(j) => {
                let merged = absorb_exec(&r[j], n);
                let ghost before = node_views(r@);
                assert(before[j as int] == r@[j as int]@);
                r.set(j, merged);
                assert(node_views(r@) =~= before.update(j as int, merged@));
            },
            None => {
                let c = n.copy();
                proof {
                    lemma_node_views_push(r@, c);
                }
                r.push(c);
            },
        }
        i += 1;
    }
    assert(nv.take(nodes@.len() as int) =~= nv);
    r
}

/// The graph made of the given nodes (those of one address merged, see
/// `merge_nodes`, and marked local at the local address), a placeholder for
/// every endpoint of the merged connections `es` that no
/// node has, the connections `es`, and their counts.
pub open spec fn assembled(
    nodes: Seq<NodeView>,
    es: Seq<EdgeView>,
    local: Seq<char>,
    captured_at: Seq<char>,
    duration_ms: u64,
) -> GraphView {
    let mm = merge_nodes(nodes);
    let ns = marked(mm, local) + placeholders(node_ips(mm), es, local);
    GraphView {
        nodes: ns,
        edges: es,
        captured_at: captured_at,
        local_ip: local,
        summary: GraphSummary {
            total_nodes: ns.len() as usize,
            total_edges: es.len() as usize,
            tcp_connections: count_protocol(es, "TCP"@) as usize,
            udp_connections: count_protocol(es, "UDP"@) as usize,
            scan_duration_ms: duration_ms,
        },
    }
}

/// Every connection endpoint has a node.
pub open spec fn endpoints_have_nodes(g: GraphView) -> bool {
    forall|i: int|
        0 <= i < g.edges.len() ==> node_ips(g.nodes).contains(#[trigger] g.edges[i].src)
            && node_ips(g.nodes).contains(g.edges[i].dst)
}

/// Every node at the local address is marked local.
pub open spec fn local_marked(g: GraphView) -> bool {
    forall|i: int| 0 <= i < g.nodes.len() && (#[trigger] g.nodes[i]).ip == g.local_ip ==> g.nodes[i].is_local
}

proof fn lemma_assembled_laws(nodes: Seq<NodeView>, es: Seq<EdgeView>, local: Seq<char>, c: Seq<char>, d: u64)
    ensures
        endpoints_have_nodes(assembled(nodes, es, local, c, d)),
        local_marked(assembled(nodes, es, local, c, d)),
        assembled(nodes, es, local, c, d).nodes.len() <= nodes.len() + 2 * es.len(),
        node_ips(marked(merge_nodes(nodes), local)) == node_ips(merge_nodes(nodes)),
        distinct_ips(assembled(nodes, es, local, c, d).nodes),
{
    let g = assembled(nodes, es, local, c, d);
    let mm = merge_nodes(nodes);
    lemma_merge_nodes(nodes);
    let m = marked(mm, local);
    let p = placeholders(node_ips(mm), es, local);
    assert(node_ips(m) =~= node_ips(mm));
    assert(node_ips(g.nodes) =~= node_ips(m) + node_ips(p));
    lemma_placeholders_cover(node_ips(mm), es, local);
    assert forall|x: Seq<char>| node_ips(mm).contains(x) || node_ips(p).contains(x) implies #[trigger] node_ips(
        g.nodes,
    ).contains(x) by {
        if node_ips(mm).contains(x) {
            let q = choose|q: int| 0 <= q < node_ips(mm).len() && node_ips(mm)[q] == x;
            assert(node_ips(g.nodes)[q] == x);
        } else {
            let q = choose|q: int| 0 <= q < node_ips(p).len() && node_ips(p)[q] == x;
            assert(node_ips(g.nodes)[m.len() + q] == x);
        }
    }
    assert forall|i: int| 0 <= i < g.nodes.len() && (#[trigger] g.nodes[i]).ip == g.local_ip implies g.nodes[i].is_local by {
        if i >= m.len() {
            assert(g.nodes[i] == p[i - m.len()]);
            lemma_placeholders_are_placeholders(node_ips(mm), es, local);
        }
    }
    lemma_placeholders_distinct(node_ips(mm), es, local);
    assert forall|a: int, b: int| 0 <= a < b < g.nodes.len() implies (#[trigger] g.nodes[a]).ip != (
    #[trigger] g.nodes[b]).ip by {
        if b < m.len() {
            assert(g.nodes[a].ip == mm[a].ip && g.nodes[b].ip == mm[b].ip);
        } else if a < m.len() {
            assert(g.nodes[b] == p[b - m.len()]);
            assert(g.nodes[a].ip == mm[a].ip);
            assert(node_ips(mm)[a] == mm[a].ip);
        } else {
            assert(g.nodes[a] == p[a - m.len()] && g.nodes[b] == p[b - m.len()]);
        }
    }
}

proof fn lemma_placeholders_are_placeholders(known: Seq<Seq<char>>, es: Seq<EdgeView>, local: Seq<char>)
    ensures
        forall|i: int| 0 <= i < placeholders(known, es, local).len() ==> #[trigger] placeholders(known, es, local)[i] == placeholder(placeholders(known, es, local)[i].ip, local),
    decreases es.len(),
{
    if es.len() > 0 {
        lemma_placeholders_are_placeholders(known, es.drop_last(), local);
    }
}

/// The graph of the given nodes and connections, captured at `captured_at`:
/// the connections merged (see `dedup_edges`), the nodes of one address
/// merged with their ports united (see `merge_nodes`), the node at the local
/// address marked local, a placeholder node for every connection endpoint without a
/// node, and the summary counts. The duration is left at zero.
pub fn build_graph_at(nodes: Vec<Node>, edges: Vec<Edge>, local_ip: &str, captured_at: String) -> (g: Graph)
    requires
        counts_fit(edge_views(edges@)),
        nodes@.len() + 2 * edges@.len() < u32::MAX,
    ensures
        deduped(edge_views(edges@), g@.edges),
        g@ == assembled(node_views(nodes@), g@.edges, local_ip@, captured_at@, 0),
        total_count(g@.edges) == total_count(edge_views(edges@)),
        endpoints_have_nodes(g@),
        local_marked(g@),
        summary_consistent(g@),
        distinct_ips(g@.nodes),
{
    let deduped_edges = dedup_edges(edges);
    let merged_nodes = merge_nodes_exec(&nodes);
    proof {
        lemma_merge_nodes(node_views(nodes@));
    }
    let marked_nodes = mark_local_nodes(&merged_nodes, local_ip);
    let mut extra = placeholder_nodes(&marked_nodes, &deduped_edges, local_ip);
    let ghost nv = node_views(nodes@);
    let ghost ev = edge_views(deduped_edges@);
    let ghost pv = node_views(extra@);
    let mut all = marked_nodes;
    let ghost mv = node_views(all@);
    all.append(&mut extra);
    proof {
        lemma_assembled_laws(nv, ev, local_ip@, captured_at@, 0);
        assert(node_views(all@) =~= mv + pv);
        assert(node_views(all@) == assembled(nv, ev, local_ip@, captured_at@, 0).nodes);
        lemma_count_protocol_bound(ev, "TCP"@);
        lemma_count_protocol_bound(ev, "UDP"@);
        reveal_strlit("TCP");
        reveal_strlit("UDP");
        assert("TCP"@[0] != "UDP"@[0]);
        lemma_count_two_protocols(ev, "TCP"@, "UDP"@);
    }
    let _index = index_graph(&all, &deduped_edges);
    let tcp_connections = count_protocol_exec(&deduped_edges, "TCP");
    let udp_connections = count_protocol_exec(&deduped_edges, "UDP");
    let total_nodes = all.len();
    let total_edges = deduped_edges.len();
    Graph {
        nodes: all,
        edges: deduped_edges,
        captured_at: captured_at,
        local_ip: local_ip.to_owned(),
        summary: GraphSummary {
            total_nodes,
            total_edges,
            tcp_connections,
            udp_connections,
            scan_duration_ms: 0,
        },
    }
}

/// Builds the topology graph: `build_graph_at` at the current time, with
/// the time the work took as its duration.
pub fn build_graph(nodes: Vec<Node>, edges: Vec<Edge>, local_ip: &str) -> (g: Graph)
    requires
        counts_fit(edge_views(edges@)),
        nodes@.len() + 2 * edges@.len() < u32::MAX,
    ensures
        deduped(edge_views(edges@), g@.edges),
        g@ == assembled(
            node_views(nodes@),
            g@.edges,
            local_ip@,
            g@.captured_at,
            g@.summary.scan_duration_ms,
        ),
        total_count(g@.edges) == total_count(edge_views(edges@)),
        endpoints_have_nodes(g@),
        local_marked(g@),
        summary_consistent(g@),
        distinct_ips(g@.nodes),
        is_ascii_seq(g@.captured_at),
        g@.captured_at.len() >= 19,
        cut16_ok(g@.captured_at),
{
    let start = instant_now();
    let captured_at = now_rfc3339();
    proof {
        lemma_ascii_cut16(captured_at@);
    }
    let mut g = build_graph_at(nodes, edges, local_ip, captured_at);
    let elapsed = instant_elapsed(&start);
    let ms = duration_as_millis(&elapsed);
    g.summary.scan_duration_ms = #[verifier::truncate] (ms as u64);
    g
}

// ───────────────────────────── filtering by connection count ───────────────

/// `ip` is an endpoint of a connection counted at least `min` times.
pub open spec fn heavy_endpoint(es: Seq<EdgeView>, min: u32, ip: Seq<char>) -> bool {
    exists|i: int| 0 <= i < es.len() && (#[trigger] es[i]).count >= min && (es[i].src == ip || es[i].dst == ip)
}

/// The nodes kept by the filter: local ones and heavy endpoints.
pub open spec fn node_kept(es: Seq<EdgeView>, min: u32) -> spec_fn(NodeView) -> bool {
    |n: NodeView| n.is_local || heavy_endpoint(es, min, n.ip)
}

/// The connections kept by the filter: both endpoints heavy.
pub open spec fn edge_kept(es: Seq<EdgeView>, min: u32) -> spec_fn(EdgeView) -> bool {
    |e: EdgeView| heavy_endpoint(es, min, e.src) && heavy_endpoint(es, min, e.dst)
}

/// The graph after filtering with threshold `min`, summary totals updated.
pub open spec fn filtered(g: GraphView, min: u32) -> GraphView {
    let ns = g.nodes.filter(node_kept(g.edges, min));
    let es = g.edges.filter(edge_kept(g.edges, min));
    GraphView {
        nodes: ns,
        edges: es,
        captured_at: g.captured_at,
        local_ip: g.local_ip,
        summary: GraphSummary {
            total_nodes: ns.len() as usize,
            total_edges: es.len() as usize,
            tcp_connections: g.summary.tcp_connections,
            udp_connections: g.summary.udp_connections,
            scan_duration_ms: g.summary.scan_duration_ms,
        },
    }
}

/// Whether `ip` is an endpoint of a connection counted at least `min` times.
pub fn is_heavy_endpoint(edges: &Vec<Edge>, min: u32, ip: &str) -> (r: bool)
    ensures
        r == heavy_endpoint(edge_views(edges@), min, ip@),
{
    let ghost ev = edge_views(edges@);
    let mut i: usize = 0;
    while i < edges.len()
        invariant
            i <= edges@.len(),
            ev == edge_views(edges@),
            forall|q: int| 0 <= q < i ==> !((#[trigger] ev[q]).count >= min && (ev[q].src == ip@ || ev[q].dst == ip@)),
        decreases edges@.len() - i,
    {
        if edges[i].count >= min && (str_eq(edges[i].src.as_str(), ip) || str_eq(edges[i].dst.as_str(), ip)) {
            assert(ev[i as int].count >= min);
            return true;
        }
        i += 1;
    }
    false
}

/// Keeps the local nodes and the endpoints of the connections counted at
/// least `min_connections` times, and the connections between kept
/// endpoints; the summary's totals follow.
pub fn filter_by_min_connections(graph: &mut Graph, min_connections: u32)
    ensures
        final(graph)@ == filtered(old(graph)@, min_connections),
{
    let ghost g = graph@;
    let ghost es = g.edges;
    let mut nodes: Vec<Node> = Vec::new();
    let mut i: usize = 0;
    assert(g.nodes.take(0) =~= Seq::<NodeView>::empty());
    proof {
        reveal(Seq::filter);
    }
    while i < graph.nodes.len()
        invariant
            i <= g.nodes.len(),
            graph@ == g,
            es == g.edges,
            node_views(nodes@) == g.nodes.take(i as int).filter(node_kept(es, min_connections)),
        decreases g.nodes.len() - i,
    {
        assert(g.nodes.take(i + 1).drop_last() =~= g.nodes.take(i as int));
        assert(g.nodes.take(i + 1).last() == graph.nodes@[i as int]@);
        let ghost x = g.nodes[i as int];
        let ghost pre = g.nodes.take(i as int).filter(node_kept(es, min_connections));
        proof {
            reveal(Seq::filter);
        }
        assert(g.nodes.take(i + 1).filter(node_kept(es, min_connections)) == (if node_kept(
            es,
            min_connections,
        )(x) {
            pre.push(x)
        } else {
            pre
        }));
        if graph.nodes[i].is_local || is_heavy_endpoint(&graph.edges, min_connections, graph.nodes[i].ip.as_str()) {
            let n = graph.nodes[i].copy();
            proof {
                lemma_node_views_push(nodes@, n);
            }
            nodes.push(n);
        }
        i += 1;
    }
    assert(g.nodes.take(g.nodes.len() as int) =~= g.nodes);
    let mut edges: Vec<Edge> = Vec::new();
    let mut j: usize = 0;
    assert(es.take(0) =~= Seq::<EdgeView>::empty());
    assert(edge_views(edges@) =~= Seq::<EdgeView>::empty());
    proof {
        reveal(Seq::filter);
    }
    while j < graph.edges.len()
        invariant
            j <= es.len(),
            graph@ == g,
            es == g.edges,
            edge_views(edges@) == es.take(j as int).filter(edge_kept(es, min_connections)),
        decreases es.len() - j,
    {
        assert(es.take(j + 1).drop_last() =~= es.take(j as int));
        assert(es.take(j + 1).last() == graph.edges@[j as int]@);
        let ghost y = es[j as int];
        let ghost pre = es.take(j as int).filter(edge_kept(es, min_connections));
        proof {
            reveal(Seq::filter);
        }
        assert(es.take(j + 1).filter(edge_kept(es, min_connections)) == (if edge_kept(
            es,
            min_connections,
        )(y) {
            pre.push(y)
        } else {
            pre
        }));
        if is_heavy_endpoint(&graph.edges, min_connections, graph.edges[j].src.as_str())
            && is_heavy_endpoint(&graph.edges, min_connections, graph.edges[j].dst.as_str()) {
            let e = graph.edges[j].copy();
            proof {
                crate::data_manager::lemma_edge_views_push(edges@, e);
            }
            edges.push(e);
        }
        j += 1;
    }
    assert(es.take(es.len() as int) =~= es);
    let total_nodes = nodes.len();
    let total_edges = edges.len();
    graph.nodes = nodes;
    graph.edges = edges;
    graph.summary.total_nodes = total_nodes;
    graph.summary.total_edges = total_edges;
}

// ───────────────────────────── laws ────────────────────────────────────────

proof fn lemma_filter_all<A>(s: Seq<A>, p: spec_fn(A) -> bool)
    requires
        forall|i: int| 0 <= i < s.len() ==> p(#[trigger] s[i]),
    ensures
        s.filter(p) == s,
    decreases s.len(),
{
    reveal(Seq::filter);
    if s.len() > 0 {
        lemma_filter_all(s.drop_last(), p);
        assert(s.drop_last().push(s.last()) =~= s);
    }
}

/// Merged connections have pairwise distinct keys.
pub proof fn law_dedup_keys_unique(s: Seq<EdgeView>, r: Seq<EdgeView>)
    requires
        deduped(s, r),
    ensures
        forall|a: int, b: int| 0 <= a < b < r.len() ==> ekey(#[trigger] r[a]) != ekey(#[trigger] r[b]),
{
    assert forall|a: int, b: int| 0 <= a < b < r.len() implies ekey(#[trigger] r[a]) != ekey(#[trigger] r[b]) by {
        lemma_key_lt_asymmetric(ekey(r[a]), ekey(r[b]));
    }
}

/// In a sequence whose keys ascend strictly, each connection is the merge of
/// its own key.
proof fn lemma_sorted_self_merged(r: Seq<EdgeView>, j: int)
    requires
        strictly_sorted(r),
        0 <= j < r.len(),
    ensures
        first_with(r, ekey(r[j])) == r[j],
        key_sum(r, ekey(r[j])) == r[j].count,
    decreases r.len(),
{
    let k = ekey(r[j]);
    let p = r.drop_last();
    assert(p.push(r.last()) =~= r);
    lemma_push_facts(p, r.last(), k);
    if j == r.len() - 1 {
        assert forall|i: int| 0 <= i < p.len() implies ekey(#[trigger] p[i]) != k by {
            assert(p[i] == r[i]);
            lemma_key_lt_asymmetric(ekey(r[i]), k);
        }
        lemma_key_sum_absent(p, k);
    } else {
        assert(p[j] == r[j]);
        assert(has_key(p, k));
        lemma_key_lt_asymmetric(k, ekey(r.last()));
        lemma_sorted_self_merged(p, j);
    }
}

/// Two sequences whose keys ascend strictly and that hold the same keys
/// hold them at the same places.
proof fn lemma_sorted_same_keys(a: Seq<EdgeView>, b: Seq<EdgeView>)
    requires
        strictly_sorted(a),
        strictly_sorted(b),
        forall|k: EdgeKey| #[trigger] has_key(a, k) == has_key(b, k),
    ensures
        a.len() == b.len(),
        forall|j: int| 0 <= j < a.len() ==> ekey(#[trigger] a[j]) == ekey(b[j]),
    decreases a.len() + b.len(),
{
    if a.len() == 0 {
        if b.len() > 0 {
            let k = ekey(b[0]);
            assert(has_key(b, k));
            assert(!has_key(a, k));
        }
    } else if b.len() == 0 {
        let k = ekey(a[0]);
        assert(has_key(a, k));
        assert(!has_key(b, k));
    } else {
        let x = ekey(a.last());
        let y = ekey(b.last());
        assert(ekey(a[a.len() - 1]) == x);
        assert(ekey(b[b.len() - 1]) == y);
        assert(has_key(a, x));
        assert(has_key(b, x));
        assert(has_key(b, y));
        assert(has_key(a, y));
        let i = choose|i: int| 0 <= i < b.len() && ekey(b[i]) == x;
        let i2 = choose|i2: int| 0 <= i2 < a.len() && ekey(a[i2]) == y;
        if x != y {
            assert(i < b.len() - 1);
            assert(i2 < a.len() - 1);
            assert(key_lt(ekey(b[i]), ekey(b[b.len() - 1])));
            assert(key_lt(ekey(a[i2]), ekey(a[a.len() - 1])));
            lemma_key_lt_asymmetric(x, y);
        }
        let a2 = a.drop_last();
        let b2 = b.drop_last();
        assert forall|k: EdgeKey| #[trigger] has_key(a2, k) == has_key(b2, k) by {
            assert(a2.push(a.last()) =~= a);
            assert(b2.push(b.last()) =~= b);
            lemma_push_facts(a2, a.last(), k);
            lemma_push_facts(b2, b.last(), k);
            if has_key(a2, x) {
                let q = choose|q: int| 0 <= q < a2.len() && ekey(a2[q]) == x;
                assert(a2[q] == a[q]);
                lemma_key_lt_asymmetric(ekey(a[q]), x);
            }
            if has_key(b2, x) {
                let q = choose|q: int| 0 <= q < b2.len() && ekey(b2[q]) == x;
                assert(b2[q] == b[q]);
                lemma_key_lt_asymmetric(ekey(b[q]), x);
            }
        }
        lemma_sorted_same_keys(a2, b2);
        assert forall|j: int| 0 <= j < a.len() implies ekey(#[trigger] a[j]) == ekey(b[j]) by {
            if j < a.len() - 1 {
                assert(a2[j] == a[j]);
                assert(b2[j] == b[j]);
            }
        }
    }
}

/// Merging connections that are already merged changes nothing.
pub proof fn law_dedup_idempotent(s: Seq<EdgeView>, r: Seq<EdgeView>, r2: Seq<EdgeView>)
    requires
        deduped(s, r),
        deduped(r, r2),
    ensures
        r2 == r,
{
    lemma_sorted_same_keys(r, r2);
    assert forall|j: int| 0 <= j < r.len() implies #[trigger] r2[j] == r[j] by {
        assert(ekey(r2[j]) == ekey(r[j]));
        lemma_sorted_self_merged(r, j);
        assert(r2[j] == merged(r, ekey(r[j])));
    }
    assert(r2 =~= r);
}

/// Merging has one result: two merges of the same connections are equal,
/// so `build_graph`'s connections are those `dedup_edges` gives.
pub proof fn law_dedup_unique(s: Seq<EdgeView>, r1: Seq<EdgeView>, r2: Seq<EdgeView>)
    requires
        deduped(s, r1),
        deduped(s, r2),
    ensures
        r1 == r2,
{
    assert forall|k: EdgeKey| #[trigger] has_key(r1, k) == has_key(r2, k) by {
        assert(has_key(r1, k) == has_key(s, k));
        assert(has_key(r2, k) == has_key(s, k));
    }
    lemma_sorted_same_keys(r1, r2);
    assert forall|j: int| 0 <= j < r1.len() implies #[trigger] r1[j] == r2[j] by {
        assert(ekey(r1[j]) == ekey(r2[j]));
        assert(r1[j] == merged(s, ekey(r1[j])));
        assert(r2[j] == merged(s, ekey(r2[j])));
    }
    assert(r1 =~= r2);
}

proof fn lemma_key_sum_concat(a: Seq<EdgeView>, b: Seq<EdgeView>, k: EdgeKey)
    ensures
        key_sum(a + b, k) == key_sum(a, k) + key_sum(b, k),
    decreases b.len(),
{
    if b.len() == 0 {
        assert(a + b =~= a);
    } else {
        assert((a + b).drop_last() =~= a + b.drop_last());
        assert((a + b).last() == b.last());
        lemma_key_sum_concat(a, b.drop_last(), k);
    }
}

/// Swapping two neighbouring connections before merging changes neither the
/// keys, nor their order, nor the counts of the merged connections (only the
/// source port and state, taken from the first connection of a key, may
/// differ). Every reordering is a chain of such swaps.
pub proof fn law_dedup_swap(s: Seq<EdgeView>, i: int, r: Seq<EdgeView>, r2: Seq<EdgeView>)
    requires
        0 <= i,
        i + 1 < s.len(),
        deduped(s, r),
        deduped(s.take(i) + seq![s[i + 1], s[i]] + s.skip(i + 2), r2),
    ensures
        r.len() == r2.len(),
        forall|j: int| 0 <= j < r.len() ==> ekey(#[trigger] r[j]) == ekey(r2[j]) && r[j].count == r2[j].count,
{
    let s2 = s.take(i) + seq![s[i + 1], s[i]] + s.skip(i + 2);
    let a = s.take(i);
    let c = s.skip(i + 2);
    assert(s =~= a + seq![s[i], s[i + 1]] + c);
    assert forall|k: EdgeKey| #[trigger] has_key(s2, k) == has_key(s, k) by {
        if has_key(s, k) {
            let q = choose|q: int| 0 <= q < s.len() && ekey(s[q]) == k;
            if q == i {
                assert(s2[i + 1] == s[q]);
            } else if q == i + 1 {
                assert(s2[i] == s[q]);
            } else {
                assert(s2[q] == s[q]);
            }
        }
        if has_key(s2, k) {
            let q = choose|q: int| 0 <= q < s2.len() && ekey(s2[q]) == k;
            if q == i {
                assert(s[i + 1] == s2[q]);
            } else if q == i + 1 {
                assert(s[i] == s2[q]);
            } else {
                assert(s[q] == s2[q]);
            }
        }
    }
    assert forall|k: EdgeKey| #[trigger] key_sum(s2, k) == key_sum(s, k) by {
        lemma_key_sum_concat(a + seq![s[i], s[i + 1]], c, k);
        lemma_key_sum_concat(a, seq![s[i], s[i + 1]], k);
        lemma_key_sum_concat(a + seq![s[i + 1], s[i]], c, k);
        lemma_key_sum_concat(a, seq![s[i + 1], s[i]], k);
        assert(seq![s[i], s[i + 1]].drop_last() =~= seq![s[i]]);
        assert(seq![s[i + 1], s[i]].drop_last() =~= seq![s[i + 1]]);
        assert(seq![s[i]].drop_last() =~= Seq::<EdgeView>::empty());
        assert(seq![s[i + 1]].drop_last() =~= Seq::<EdgeView>::empty());
        let x = s[i];
        let y = s[i + 1];
        let tx: nat = if ekey(x) == k { x.count as nat } else { 0 };
        let ty: nat = if ekey(y) == k { y.count as nat } else { 0 };
        let e = Seq::<EdgeView>::empty();
        assert(key_sum(e, k) == 0);
        assert(seq![x] =~= e.push(x));
        assert(seq![y] =~= e.push(y));
        assert(seq![x, y] =~= seq![x].push(y));
        assert(seq![y, x] =~= seq![y].push(x));
        lemma_push_facts(e, x, k);
        lemma_push_facts(e, y, k);
        lemma_push_facts(seq![x], y, k);
        lemma_push_facts(seq![y], x, k);
        assert(key_sum(seq![x], k) == tx);
        assert(key_sum(seq![y], k) == ty);
        assert(key_sum(seq![x, y], k) == tx + ty);
        assert(key_sum(seq![y, x], k) == ty + tx);
    }
    assert forall|k: EdgeKey| #[trigger] has_key(r, k) == has_key(r2, k) by {
        assert(has_key(r, k) == has_key(s, k));
        assert(has_key(r2, k) == has_key(s2, k));
    }
    lemma_sorted_same_keys(r, r2);
    assert forall|j: int| 0 <= j < r.len() implies ekey(#[trigger] r[j]) == ekey(r2[j]) && r[j].count
        == r2[j].count by {
        let k = ekey(r[j]);
        assert(r[j] == merged(s, k));
        assert(r2[j] == merged(s2, ekey(r2[j])));
        assert(key_sum(s2, k) == key_sum(s, k));
    }
}

/// The heavy endpoints of the connections kept by a filter are those of the
/// connections before it.
proof fn lemma_filter_heavy(es: Seq<EdgeView>, min: u32, ip: Seq<char>)
    ensures
        heavy_endpoint(es.filter(edge_kept(es, min)), min, ip) == heavy_endpoint(es, min, ip),
{
    broadcast use vstd::seq_lib::group_filter_ensures;

    let es2 = es.filter(edge_kept(es, min));
    if heavy_endpoint(es, min, ip) {
        let i = choose|i: int| 0 <= i < es.len() && (#[trigger] es[i]).count >= min && (es[i].src == ip || es[i].dst == ip);
        assert(heavy_endpoint(es, min, es[i].src));
        assert(heavy_endpoint(es, min, es[i].dst));
        assert(edge_kept(es, min)(es[i]));
        assert(es2.contains(es[i]));
        let j = choose|j: int| 0 <= j < es2.len() && es2[j] == es[i];
        assert(es2[j].count >= min);
    }
    if heavy_endpoint(es2, min, ip) {
        let j = choose|j: int| 0 <= j < es2.len() && (#[trigger] es2[j]).count >= min && (es2[j].src == ip || es2[j].dst == ip);
        assert(es2.contains(es2[j]));
        es.lemma_filter_contains_rev(edge_kept(es, min), es2[j]);
        let i = choose|i: int| 0 <= i < es.len() && es[i] == es2[j];
        assert(es[i].count >= min);
    }
}

/// Filtering twice with the same threshold is filtering once.
pub proof fn law_filter_idempotent(g: GraphView, min: u32)
    ensures
        filtered(filtered(g, min), min) == filtered(g, min),
{
    broadcast use vstd::seq_lib::group_filter_ensures;

    let es = g.edges;
    let es2 = es.filter(edge_kept(es, min));
    let ns2 = g.nodes.filter(node_kept(es, min));
    assert forall|ip: Seq<char>| #[trigger] heavy_endpoint(es2, min, ip) == heavy_endpoint(es, min, ip) by {
        lemma_filter_heavy(es, min, ip);
    }
    assert(node_kept(es2, min) =~= node_kept(es, min));
    assert(edge_kept(es2, min) =~= edge_kept(es, min));
    lemma_filter_all(ns2, node_kept(es, min));
    lemma_filter_all(es2, edge_kept(es, min));
}

/// A filter keeps every local node.
pub proof fn law_filter_keeps_local(g: GraphView, min: u32)
    ensures
        forall|i: int| 0 <= i < g.nodes.len() && (#[trigger] g.nodes[i]).is_local ==> filtered(g, min).nodes.contains(g.nodes[i]),
{
    broadcast use vstd::seq_lib::group_filter_ensures;

    assert forall|i: int| 0 <= i < g.nodes.len() && (#[trigger] g.nodes[i]).is_local implies filtered(g, min).nodes.contains(g.nodes[i]) by {
        assert(node_kept(g.edges, min)(g.nodes[i]));
    }
}

/// A filter only removes: the nodes and connections left are among those
/// before, and the summary's totals are their numbers.
pub proof fn law_filter_shrinks(g: GraphView, min: u32)
    ensures
        filtered(g, min).nodes.len() <= g.nodes.len(),
        filtered(g, min).edges.len() <= g.edges.len(),
        forall|i: int| 0 <= i < filtered(g, min).nodes.len() ==> g.nodes.contains(#[trigger] filtered(g, min).nodes[i]),
        forall|i: int| 0 <= i < filtered(g, min).edges.len() ==> g.edges.contains(#[trigger] filtered(g, min).edges[i]),
        filtered(g, min).summary.total_nodes == filtered(g, min).nodes.len() as usize,
        filtered(g, min).summary.total_edges == filtered(g, min).edges.len() as usize,
{
    broadcast use vstd::seq_lib::group_filter_ensures;

    let f = filtered(g, min);
    assert forall|i: int| 0 <= i < f.nodes.len() implies g.nodes.contains(#[trigger] f.nodes[i]) by {
        assert(f.nodes.contains(f.nodes[i]));
        g.nodes.lemma_filter_contains_rev(node_kept(g.edges, min), f.nodes[i]);
    }
    assert forall|i: int| 0 <= i < f.edges.len() implies g.edges.contains(#[trigger] f.edges[i]) by {
        assert(f.edges.contains(f.edges[i]));
        g.edges.lemma_filter_contains_rev(edge_kept(g.edges, min), f.edges[i]);
    }
}

/// When every connection endpoint has a node, it still has one after a
/// filter.
pub proof fn law_filter_keeps_endpoints(g: GraphView, min: u32)
    requires
        endpoints_have_nodes(g),
    ensures
        endpoints_have_nodes(filtered(g, min)),
{
    broadcast use vstd::seq_lib::group_filter_ensures;

    let f = filtered(g, min);
    law_filter_shrinks(g, min);
    assert forall|i: int| 0 <= i < f.edges.len() implies node_ips(f.nodes).contains(#[trigger] f.edges[i].src)
        && node_ips(f.nodes).contains(f.edges[i].dst) by {
        let e = f.edges[i];
        assert(edge_kept(g.edges, min)(e));
        assert(g.edges.contains(e));
        let k = choose|k: int| 0 <= k < g.edges.len() && g.edges[k] == e;
        assert(node_ips(g.nodes).contains(g.edges[k].src));
        assert(node_ips(g.nodes).contains(g.edges[k].dst));
        let a = choose|a: int| 0 <= a < node_ips(g.nodes).len() && node_ips(g.nodes)[a] == e.src;
        let b = choose|b: int| 0 <= b < node_ips(g.nodes).len() && node_ips(g.nodes)[b] == e.dst;
        assert(node_kept(g.edges, min)(g.nodes[a]));
        assert(node_kept(g.edges, min)(g.nodes[b]));
        assert(f.nodes.contains(g.nodes[a]));
        assert(f.nodes.contains(g.nodes[b]));
        let a2 = choose|a2: int| 0 <= a2 < f.nodes.len() && f.nodes[a2] == g.nodes[a];
        let b2 = choose|b2: int| 0 <= b2 < f.nodes.len() && f.nodes[b2] == g.nodes[b];
        assert(node_ips(f.nodes)[a2] == e.src);
        assert(node_ips(f.nodes)[b2] == e.dst);
    }
}


/// After filtering with threshold `min`, a connection of the graph is kept
/// exactly when each of its two endpoints is an endpoint of some connection
/// counted at least `min` times, whatever its own count.
pub proof fn law_filter_keeps_connections_between_kept(g: GraphView, min: u32)
    ensures
        forall|i: int|
            0 <= i < g.edges.len() ==> (filtered(g, min).edges.contains(#[trigger] g.edges[i]) <==> ((
            exists|a: int|
                0 <= a < g.edges.len() && g.edges[a].count >= min && (g.edges[a].src
                    == g.edges[i].src || g.edges[a].dst == g.edges[i].src)) && (exists|b: int|
                0 <= b < g.edges.len() && g.edges[b].count >= min && (g.edges[b].src
                    == g.edges[i].dst || g.edges[b].dst == g.edges[i].dst)))),
        forall|e: EdgeView| #[trigger] filtered(g, min).edges.contains(e) ==> g.edges.contains(e),
{
    broadcast use vstd::seq_lib::group_filter_ensures;

    let es = g.edges;
    let p = edge_kept(es, min);
    assert forall|i: int| 0 <= i < es.len() implies (filtered(g, min).edges.contains(#[trigger] es[i]) <==> ((
    exists|a: int|
        0 <= a < es.len() && es[a].count >= min && (es[a].src == es[i].src || es[a].dst
            == es[i].src)) && (exists|b: int|
        0 <= b < es.len() && es[b].count >= min && (es[b].src == es[i].dst || es[b].dst
            == es[i].dst)))) by {
        let e = es[i];
        assert(es.contains(e));
        if p(e) {
            es.lemma_filter_contains(p, i);
        }
        if es.filter(p).contains(e) {
            let k = choose|k: int| 0 <= k < es.filter(p).len() && es.filter(p)[k] == e;
            assert(p(es.filter(p)[k]));
        }
        if heavy_endpoint(es, min, e.src) {
            let a = choose|a: int| 0 <= a < es.len() && (#[trigger] es[a]).count >= min && (es[a].src == e.src || es[a].dst == e.src);
            assert(es[a].count >= min);
        }
        if heavy_endpoint(es, min, e.dst) {
            let a = choose|a: int| 0 <= a < es.len() && (#[trigger] es[a]).count >= min && (es[a].src == e.dst || es[a].dst == e.dst);
            assert(es[a].count >= min);
        }
    }
    assert forall|e: EdgeView| #[trigger] filtered(g, min).edges.contains(e) implies es.contains(e) by {
        es.lemma_filter_contains_rev(p, e);
    }
}

} // verus!
