//! Naming what the overview shows: which addresses are on the local network,
//! which provider a public address belongs to, the service name of a port,
//! and how a node is displayed.
use vstd::prelude::*;
use crate::data_manager::{Node, NodeView, node_views};
use crate::text::{
    chars_of, contains_seq, parse_bounded, parse_bounded_exec, spec_to_lowercase, split_exec,
    split_on, starts_with, str_contains, str_eq, str_starts_with, to_lowercase, push_str,
};

verus! {

// ───────────────────────────── local network addresses ─────────────────────

/// The value of the second dot-separated field, or 0 when it is missing or
/// not a number from 0 to 255.
pub open spec fn second_octet(ip: Seq<char>) -> nat {
    let parts = split_on(ip, '.');
    if parts.len() > 1 {
        match parse_bounded(parts[1], 10, 255) {
            Some(v) => v,
            None => 0,
        }
    } else {
        0
    }
}

/// An address of the local network: IPv6 loopback, link-local (`fe80:`) or
/// unique local (`fc`, `fd`), or IPv4 10/8, 172.16/12, 192.168/16, 127/8.
pub open spec fn lan_ip(ip: Seq<char>) -> bool {
    ||| ip == "::1"@
    ||| starts_with(spec_to_lowercase(ip), "fe80:"@)
    ||| starts_with(spec_to_lowercase(ip), "fc"@)
    ||| starts_with(spec_to_lowercase(ip), "fd"@)
    ||| starts_with(ip, "192.168."@)
    ||| starts_with(ip, "10."@)
    ||| starts_with(ip, "127."@)
    ||| in_172_16(ip)
}

/// Whether an address belongs to the local network (see `lan_ip`).
pub fn is_lan_ip(ip: &str) -> (r: bool)
    ensures
        r == lan_ip(ip@),
{
    if str_eq(ip, "::1") {
        return true;
    }
    let lower = to_lowercase(ip);
    if str_starts_with(lower.as_str(), "fe80:") || str_starts_with(lower.as_str(), "fc")
        || str_starts_with(lower.as_str(), "fd") {
        return true;
    }
    if str_starts_with(ip, "192.168.") || str_starts_with(ip, "10.") || str_starts_with(ip, "127.") {
        return true;
    }
    in_172_16_12(ip)
}

/// An address in 172.16.0.0/12: `172.` and a second octet from 16 to 31.
#[verifier::opaque]
pub open spec fn in_172_16(ip: Seq<char>) -> bool {
    starts_with(ip, "172."@) && 16 <= second_octet(ip) <= 31
}

/// Whether an address is in 172.16.0.0/12 (see `in_172_16`).
pub fn in_172_16_12(ip: &str) -> (r: bool)
    ensures
        r == in_172_16(ip@),
{
    reveal(in_172_16);
    if !str_starts_with(ip, "172.") {
        return false;
    }
    let v = chars_of(ip);
    let parts = split_exec(v.as_slice(), '.');
    let second: u64 = if parts.len() > 1 {
        match parse_bounded_exec(parts[1].as_slice(), 10, 255) {
            Some(x) => x,
            None => 0,
        }
    } else {
        0
    };
    16 <= second && second <= 31
}

// ───────────────────────────── providers ───────────────────────────────────

/// The provider that a host name (lower-cased) or an address prefix points
/// to, or "其他" (other).
pub open spec fn isp_of_spec(hostname: Option<Seq<char>>, ip: Seq<char>) -> Seq<char> {
    let h = spec_to_lowercase(
        match hostname {
            Some(x) => x,
            None => ""@,
        },
    );
    if contains_seq(h, "google"@) || contains_seq(h, "googleapis"@) || contains_seq(h, "1e100"@)
        || starts_with(ip, "8.8."@) || starts_with(ip, "142.250."@) || starts_with(ip, "172.217."@)
        || starts_with(ip, "216.58."@) {
        "Google"@
    } else if contains_seq(h, "github"@) || starts_with(ip, "140.82."@) || starts_with(
        ip,
        "185.199."@,
    ) {
        "GitHub"@
    } else if contains_seq(h, "apple"@) || starts_with(ip, "17."@) {
        "Apple"@
    } else if contains_seq(h, "cloudflare"@) || starts_with(ip, "1.1.1."@) || starts_with(
        ip,
        "1.0.0."@,
    ) || starts_with(ip, "104.18."@) || starts_with(ip, "172.64."@) {
        "Cloudflare"@
    } else if contains_seq(h, "amazonaws"@) || contains_seq(h, "aws"@) || contains_seq(
        h,
        "amazon"@,
    ) {
        "AWS"@
    } else if contains_seq(h, "akamai"@) || contains_seq(h, "akamaitechnologies"@) {
        "Akamai"@
    } else if contains_seq(h, "canonical"@) || contains_seq(h, "ubuntu"@) || starts_with(
        ip,
        "185.125."@,
    ) {
        "Canonical"@
    } else if contains_seq(h, "microsoft"@) || contains_seq(h, "msft"@) || contains_seq(
        h,
        "azure"@,
    ) {
        "Microsoft"@
    } else if contains_seq(h, "fastly"@) {
        "Fastly"@
    } else if contains_seq(h, "meta."@) || contains_seq(h, "facebook"@) || contains_seq(
        h,
        "instagram"@,
    ) {
        "Meta"@
    } else {
        "其他"@
    }
}

/// The provider of a host name or address by the built-in rules (see
/// `isp_of_spec`).
pub fn isp_of(hostname: Option<&str>, ip: &str) -> (r: &'static str)
    ensures
        r@ == isp_of_spec(
            match hostname {
                Some(x) => Some(x@),
                None => None,
            },
            ip@,
        ),
{
    let raw: &str = match hostname {
        Some(x) => x,
        None => "",
    };
    let lower = to_lowercase(raw);
    let h = lower.as_str();
    if str_contains(h, "google") || str_contains(h, "googleapis") || str_contains(h, "1e100")
        || str_starts_with(ip, "8.8.") || str_starts_with(ip, "142.250.") || str_starts_with(
        ip,
        "172.217.",
    ) || str_starts_with(ip, "216.58.") {
        return "Google";
    }
    if str_contains(h, "github") || str_starts_with(ip, "140.82.") || str_starts_with(ip, "185.199.") {
        return "GitHub";
    }
    if str_contains(h, "apple") || str_starts_with(ip, "17.") {
        return "Apple";
    }
    if str_contains(h, "cloudflare") || str_starts_with(ip, "1.1.1.") || str_starts_with(ip, "1.0.0.")
        || str_starts_with(ip, "104.18.") || str_starts_with(ip, "172.64.") {
        return "Cloudflare";
    }
    if str_contains(h, "amazonaws") || str_contains(h, "aws") || str_contains(h, "amazon") {
        return "AWS";
    }
    if str_contains(h, "akamai") || str_contains(h, "akamaitechnologies") {
        return "Akamai";
    }
    if str_contains(h, "canonical") || str_contains(h, "ubuntu") || str_starts_with(ip, "185.125.") {
        return "Canonical";
    }
    if str_contains(h, "microsoft") || str_contains(h, "msft") || str_contains(h, "azure") {
        return "Microsoft";
    }
    if str_contains(h, "fastly") {
        return "Fastly";
    }
    if str_contains(h, "meta.") || str_contains(h, "facebook") || str_contains(h, "instagram") {
        return "Meta";
    }
    "其他"
}

/// The provider label: the built-in rules first, then the organisation that
/// the ASN database gave for the address (`org`), when it is not empty.
pub open spec fn isp_label_spec(
    hostname: Option<Seq<char>>,
    ip: Seq<char>,
    org: Option<Seq<char>>,
) -> Seq<char> {
    let hc = isp_of_spec(hostname, ip);
    if hc != "其他"@ {
        hc
    } else {
        match org {
            Some(o) => if o.len() > 0 {
                o
            } else {
                "其他"@
            },
            None => "其他"@,
        }
    }
}

/// The provider label of an address, given the organisation that the ASN
/// database returned for it (see `isp_label_spec`).
pub fn isp_label(hostname: Option<&str>, ip: &str, org: Option<String>) -> (r: String)
    ensures
        r@ == isp_label_spec(
            match hostname {
                Some(x) => Some(x@),
                None => None,
            },
            ip@,
            match org {
                Some(o) => Some(o@),
                None => None,
            },
        ),
{
    let hardcoded = isp_of(hostname, ip);
    if !str_eq(hardcoded, "其他") {
        return hardcoded.to_owned();
    }
    match org {
        Some(o) => {
            if !o.as_str().is_empty() {
                o
            } else {
                "其他".to_owned()
            }
        },
        None => "其他".to_owned(),
    }
}

// ───────────────────────────── port names ──────────────────────────────────

/// The service name shown for well-known ports.
pub open spec fn port_name(port: u16) -> Option<Seq<char>> {
    if port == 443 {
        Some("HTTPS"@)
    } else if port == 80 {
        Some("HTTP"@)
    } else if port == 22 {
        Some("SSH"@)
    } else if port == 5228 {
        Some("GCM"@)
    } else if port == 5223 {
        Some("APNs"@)
    } else if port == 445 {
        Some("SMB"@)
    } else if port == 3306 {
        Some("MySQL"@)
    } else if port == 5432 {
        Some("Postgres"@)
    } else if port == 6379 {
        Some("Redis"@)
    } else {
        None
    }
}

/// The service name of a well-known port.
pub fn resolve_port_name(port: u16) -> (r: Option<&'static str>)
    ensures
        match r {
            Some(s) => port_name(port) == Some(s@),
            None => port_name(port) is None,
        },
{
    match port {
        443 => Some("HTTPS"),
        80 => Some("HTTP"),
        22 => Some("SSH"),
        5228 => Some("GCM"),
        5223 => Some("APNs"),
        445 => Some("SMB"),
        3306 => Some("MySQL"),
        5432 => Some("Postgres"),
        6379 => Some("Redis"),
        _ => None,
    }
}

// ───────────────────────────── nodes ───────────────────────────────────────

/// The first node with address `ip`.
pub open spec fn find_node(ns: Seq<NodeView>, ip: Seq<char>) -> Option<NodeView>
    decreases ns.len(),
{
    if ns.len() == 0 {
        None
    } else if ns[0].ip == ip {
        Some(ns[0])
    } else {
        find_node(ns.drop_first(), ip)
    }
}

/// The first local node.
pub open spec fn first_local(ns: Seq<NodeView>) -> Option<NodeView>
    decreases ns.len(),
{
    if ns.len() == 0 {
        None
    } else if ns[0].is_local {
        Some(ns[0])
    } else {
        first_local(ns.drop_first())
    }
}

/// The first node with address `ip`.
pub fn find_node_exec<'a>(nodes: &'a Vec<Node>, ip: &str) -> (r: Option<&'a Node>)
    ensures
        match r {
            Some(n) => find_node(node_views(nodes@), ip@) == Some(n@),
            None => find_node(node_views(nodes@), ip@) is None,
        },
{
    let ghost nv = node_views(nodes@);
    let mut i: usize = 0;
    assert(nv.skip(0) =~= nv);
    while i < nodes.len()
        invariant
            i <= nodes@.len(),
            nv == node_views(nodes@),
            find_node(nv, ip@) == find_node(nv.skip(i as int), ip@),
        decreases nodes@.len() - i,
    {
        assert(nv.skip(i as int)[0] == nodes@[i as int]@);
        if str_eq(nodes[i].ip.as_str(), ip) {
            return Some(&nodes[i]);
        }
        assert(nv.skip(i as int).drop_first() =~= nv.skip(i + 1));
        i += 1;
    }
    None
}

/// The first local node.
pub fn first_local_exec(nodes: &Vec<Node>) -> (r: Option<&Node>)
    ensures
        match r {
            Some(n) => first_local(node_views(nodes@)) == Some(n@),
            None => first_local(node_views(nodes@)) is None,
        },
{
    let ghost nv = node_views(nodes@);
    let mut i: usize = 0;
    assert(nv.skip(0) =~= nv);
    while i < nodes.len()
        invariant
            i <= nodes@.len(),
            nv == node_views(nodes@),
            first_local(nv) == first_local(nv.skip(i as int)),
        decreases nodes@.len() - i,
    {
        assert(nv.skip(i as int)[0] == nodes@[i as int]@);
        if nodes[i].is_local {
            return Some(&nodes[i]);
        }
        assert(nv.skip(i as int).drop_first() =~= nv.skip(i + 1));
        i += 1;
    }
    None
}

/// How a node is shown: "host (address)" when it has a host name other than
/// its address, else the address.
pub open spec fn display_name(node: Option<NodeView>, ip: Seq<char>) -> Seq<char> {
    match node {
        Some(n) => match n.hostname {
            Some(h) => if h != ip {
                h + " ("@ + ip + ")"@
            } else {
                ip
            },
            None => ip,
        },
        None => ip,
    }
}

/// How a node is shown (see `display_name`).
pub fn node_display(node: Option<&Node>, ip: &str) -> (r: String)
    ensures
        r@ == display_name(
            match node {
                Some(n) => Some(n@),
                None => None,
            },
            ip@,
        ),
{
    match node {
        Some(n) => match &n.hostname {
            Some(h) => {
                if !str_eq(h.as_str(), ip) {
                    let mut s = h.clone();
                    push_str(&mut s, " (");
                    push_str(&mut s, ip);
                    push_str(&mut s, ")");
                    return s;
                }
            },
            None => {},
        },
        None => {},
    }
    ip.to_owned()
}


/// The host name of a node, lower-cased, contains `w`.
pub open spec fn host_has(hostname: Option<Seq<char>>, w: Seq<char>) -> bool {
    contains_seq(
        spec_to_lowercase(
            match hostname {
                Some(x) => x,
                None => ""@,
            },
        ),
        w,
    )
}

/// An address starts with one of the given prefixes.
pub open spec fn prefixed(ip: Seq<char>, ps: Seq<Seq<char>>) -> bool {
    exists|i: int| 0 <= i < ps.len() && starts_with(ip, #[trigger] ps[i])
}

/// A host name keyword among the given ones.
pub open spec fn host_any(hostname: Option<Seq<char>>, ws: Seq<Seq<char>>) -> bool {
    exists|i: int| 0 <= i < ws.len() && host_has(hostname, #[trigger] ws[i])
}

/// The provider table, row by row and in order: a row's host name keywords
/// or address prefixes give its provider when no earlier row applies, and an
/// address that no row matches is "其他".
pub open spec fn table_rows() -> Seq<(Seq<char>, Seq<Seq<char>>, Seq<Seq<char>>)> {
    seq![
        ("Google"@, seq!["google"@, "googleapis"@, "1e100"@], seq!["8.8."@, "142.250."@, "172.217."@, "216.58."@]),
        ("GitHub"@, seq!["github"@], seq!["140.82."@, "185.199."@]),
        ("Apple"@, seq!["apple"@], seq!["17."@]),
        ("Cloudflare"@, seq!["cloudflare"@], seq!["1.1.1."@, "1.0.0."@, "104.18."@, "172.64."@]),
        ("AWS"@, seq!["amazonaws"@, "aws"@, "amazon"@], Seq::empty()),
        ("Akamai"@, seq!["akamai"@, "akamaitechnologies"@], Seq::empty()),
        ("Canonical"@, seq!["canonical"@, "ubuntu"@], seq!["185.125."@]),
        ("Microsoft"@, seq!["microsoft"@, "msft"@, "azure"@], Seq::empty()),
        ("Fastly"@, seq!["fastly"@], Seq::empty()),
        ("Meta"@, seq!["meta."@, "facebook"@, "instagram"@], Seq::empty()),
    ]
}

/// Row `r` of the provider table matches a host name and address.
pub open spec fn row_matches(r: int, hostname: Option<Seq<char>>, ip: Seq<char>) -> bool {
    host_any(hostname, table_rows()[r].1) || prefixed(ip, table_rows()[r].2)
}

/// The provider of an address is that of the first row of the provider
/// table (Google, GitHub, Apple, Cloudflare, AWS, Akamai, Canonical,
/// Microsoft, Fastly, Meta) whose host name keywords occur in the
/// lower-cased host name or whose address prefixes start the address;
/// "其他" when no row matches.
pub proof fn law_isp_table(hostname: Option<Seq<char>>, ip: Seq<char>, r: int)
    requires
        0 <= r < 10,
    ensures
        row_matches(r, hostname, ip) && (forall|q: int| 0 <= q < r ==> !row_matches(q, hostname, ip))
            ==> isp_of_spec(hostname, ip) == table_rows()[r].0,
        (forall|q: int| 0 <= q < 10 ==> !row_matches(q, hostname, ip)) ==> isp_of_spec(hostname, ip)
            == "其他"@,
{
    let t = table_rows();
    assert(t.len() == 10);
    assert(row_matches(0, hostname, ip) == (host_has(hostname, "google"@) || host_has(hostname, "googleapis"@)
        || host_has(hostname, "1e100"@) || starts_with(ip, "8.8."@) || starts_with(ip, "142.250."@)
        || starts_with(ip, "172.217."@) || starts_with(ip, "216.58."@))) by {
        assert(t[0].1[0] == "google"@ && t[0].1[1] == "googleapis"@ && t[0].1[2] == "1e100"@);
        assert(t[0].2[0] == "8.8."@ && t[0].2[1] == "142.250."@ && t[0].2[2] == "172.217."@ && t[0].2[3] == "216.58."@);
    }
    assert(row_matches(1, hostname, ip) == (host_has(hostname, "github"@) || starts_with(ip, "140.82."@)
        || starts_with(ip, "185.199."@))) by {
        assert(t[1].1[0] == "github"@);
        assert(t[1].2[0] == "140.82."@ && t[1].2[1] == "185.199."@);
    }
    assert(row_matches(2, hostname, ip) == (host_has(hostname, "apple"@) || starts_with(ip, "17."@))) by {
        assert(t[2].1[0] == "apple"@);
        assert(t[2].2[0] == "17."@);
    }
    assert(row_matches(3, hostname, ip) == (host_has(hostname, "cloudflare"@) || starts_with(ip, "1.1.1."@)
        || starts_with(ip, "1.0.0."@) || starts_with(ip, "104.18."@) || starts_with(ip, "172.64."@))) by {
        assert(t[3].1[0] == "cloudflare"@);
        assert(t[3].2[0] == "1.1.1."@ && t[3].2[1] == "1.0.0."@ && t[3].2[2] == "104.18."@ && t[3].2[3] == "172.64."@);
    }
    assert(row_matches(4, hostname, ip) == (host_has(hostname, "amazonaws"@) || host_has(hostname, "aws"@)
        || host_has(hostname, "amazon"@))) by {
        assert(t[4].1[0] == "amazonaws"@ && t[4].1[1] == "aws"@ && t[4].1[2] == "amazon"@);
    }
    assert(row_matches(5, hostname, ip) == (host_has(hostname, "akamai"@) || host_has(hostname, "akamaitechnologies"@))) by {
        assert(t[5].1[0] == "akamai"@ && t[5].1[1] == "akamaitechnologies"@);
    }
    assert(row_matches(6, hostname, ip) == (host_has(hostname, "canonical"@) || host_has(hostname, "ubuntu"@)
        || starts_with(ip, "185.125."@))) by {
        assert(t[6].1[0] == "canonical"@ && t[6].1[1] == "ubuntu"@);
        assert(t[6].2[0] == "185.125."@);
    }
    assert(row_matches(7, hostname, ip) == (host_has(hostname, "microsoft"@) || host_has(hostname, "msft"@)
        || host_has(hostname, "azure"@))) by {
        assert(t[7].1[0] == "microsoft"@ && t[7].1[1] == "msft"@ && t[7].1[2] == "azure"@);
    }
    assert(row_matches(8, hostname, ip) == host_has(hostname, "fastly"@)) by {
        assert(t[8].1[0] == "fastly"@);
    }
    assert(row_matches(9, hostname, ip) == (host_has(hostname, "meta."@) || host_has(hostname, "facebook"@)
        || host_has(hostname, "instagram"@))) by {
        assert(t[9].1[0] == "meta."@ && t[9].1[1] == "facebook"@ && t[9].1[2] == "instagram"@);
    }
    if forall|q: int| 0 <= q < 10 ==> !row_matches(q, hostname, ip) {
        assert(!row_matches(0, hostname, ip) && !row_matches(1, hostname, ip) && !row_matches(2, hostname, ip)
            && !row_matches(3, hostname, ip) && !row_matches(4, hostname, ip) && !row_matches(5, hostname, ip)
            && !row_matches(6, hostname, ip) && !row_matches(7, hostname, ip) && !row_matches(8, hostname, ip)
            && !row_matches(9, hostname, ip));
    }
    if row_matches(r, hostname, ip) && (forall|q: int| 0 <= q < r ==> !row_matches(q, hostname, ip)) {
        if r > 0 { assert(!row_matches(0, hostname, ip)); }
        if r > 1 { assert(!row_matches(1, hostname, ip)); }
        if r > 2 { assert(!row_matches(2, hostname, ip)); }
        if r > 3 { assert(!row_matches(3, hostname, ip)); }
        if r > 4 { assert(!row_matches(4, hostname, ip)); }
        if r > 5 { assert(!row_matches(5, hostname, ip)); }
        if r > 6 { assert(!row_matches(6, hostname, ip)); }
        if r > 7 { assert(!row_matches(7, hostname, ip)); }
        if r > 8 { assert(!row_matches(8, hostname, ip)); }
    }
}

} // verus!
