//! Scanning: the port-list syntax, the hosts of a CIDR network, the nodes
//! of the local interfaces and the parsing of the default-route output. The
//! probing itself (sockets, DNS, commands) is left to the caller.
use vstd::prelude::*;
use crate::cli::{default_port_list, default_ports};
use crate::data_manager::{lemma_node_views_push, node_views, opt_view, Node, NodeView};
use crate::text::{
    chars_eq, chars_of, contains_exec, contains_seq, dec, find_char, lemma_find_char, lines,
    lines_exec, parse_u32, parse_u32_exec, push_dec, split_exec, split_on, split_once,
    split_once_exec, split_whitespace_exec, starts_with, starts_with_exec, string_of, trim,
    trim_exec, views, ws_tokens,
};

verus! {

// ───────────────────────────── port lists ──────────────────────────────────

/// A part of a port list that is rejected.
#[derive(Debug, Clone, PartialEq, Eq)]
pub enum PortListError {
    /// A bound or a port that is not a decimal `u32`.
    InvalidPort(String),
    /// A range with a bound above 65535.
    RangeOutOfRange(u32, u32),
    /// A single port above 65535.
    PortOutOfRange(u32),
    /// A range whose start is above its end.
    ReversedRange(u32, u32),
}

pub enum PortListErrorView {
    InvalidPort(Seq<char>),
    RangeOutOfRange(u32, u32),
    PortOutOfRange(u32),
    ReversedRange(u32, u32),
}

impl View for PortListError {
    type V = PortListErrorView;

    open spec fn view(&self) -> PortListErrorView {
        match self {
            PortListError::InvalidPort(s) => PortListErrorView::InvalidPort(s@),
            PortListError::RangeOutOfRange(a, b) => PortListErrorView::RangeOutOfRange(*a, *b),
            PortListError::PortOutOfRange(a) => PortListErrorView::PortOutOfRange(*a),
            PortListError::ReversedRange(a, b) => PortListErrorView::ReversedRange(*a, *b),
        }
    }
}

impl PortListError {
    /// The message the command prints for this error.
    pub fn message(&self) -> (m: String)
        ensures
            m@ == match self@ {
                PortListErrorView::InvalidPort(p) => "无效端口: "@ + p,
                PortListErrorView::RangeOutOfRange(a, b) => "端口超出范围 (0-65535): "@ + dec(
                    a as nat,
                ) + "-"@ + dec(b as nat),
                PortListErrorView::PortOutOfRange(a) => "端口超出范围 (0-65535): "@ + dec(a as nat),
                PortListErrorView::ReversedRange(a, b) => "范围起点大于终点: "@ + dec(a as nat) + "-"@
                    + dec(b as nat),
            },
    {
        match self {
            PortListError::InvalidPort(p) => {
                let mut m = String::from_str("无效端口: ");
                m.append(p.as_str());
                m
            },
            PortListError::RangeOutOfRange(a, b) => {
                let mut m = String::from_str("端口超出范围 (0-65535): ");
                push_dec(&mut m, *a as u64);
                m.append("-");
                push_dec(&mut m, *b as u64);
                m
            },
            PortListError::PortOutOfRange(a) => {
                let mut m = String::from_str("端口超出范围 (0-65535): ");
                push_dec(&mut m, *a as u64);
                m
            },
            PortListError::ReversedRange(a, b) => {
                let mut m = String::from_str("范围起点大于终点: ");
                push_dec(&mut m, *a as u64);
                m.append("-");
                push_dec(&mut m, *b as u64);
                m
            },
        }
    }
}

/// The ports `lo..=hi`, for `lo <= hi`.
pub open spec fn inclusive_range(lo: nat, hi: nat) -> Seq<u16> {
    Seq::new((hi + 1 - lo) as nat, |k: int| (lo + k) as u16)
}

/// One part of a port list: `start-end` (split at the first `-`, both
/// bounds trimmed) or a single port.
pub open spec fn spec_port_part(raw: Seq<char>) -> Result<Seq<u16>, PortListErrorView> {
    let part = trim(raw);
    if contains_seq(part, "-"@) {
        let (a, b) = split_once(part, '-')->Some_0;
        let start_str = trim(a);
        let end_str = trim(b);
        match parse_u32(start_str) {
            None => Err(PortListErrorView::InvalidPort(start_str)),
            Some(start) => match parse_u32(end_str) {
                None => Err(PortListErrorView::InvalidPort(end_str)),
                Some(end) => if start > 65535 || end > 65535 {
                    Err(PortListErrorView::RangeOutOfRange(start as u32, end as u32))
                } else if start > end {
                    Err(PortListErrorView::ReversedRange(start as u32, end as u32))
                } else {
                    Ok(inclusive_range(start, end))
                },
            },
        }
    } else {
        match parse_u32(part) {
            None => Err(PortListErrorView::InvalidPort(part)),
            Some(p) => if p > 65535 {
                Err(PortListErrorView::PortOutOfRange(p as u32))
            } else {
                Ok(seq![p as u16])
            },
        }
    }
}

/// The ports of parts `i..`, or the error of the first part that fails.
pub open spec fn spec_port_parts(parts: Seq<Seq<char>>, i: int) -> Result<Seq<u16>, PortListErrorView>
    decreases parts.len() - i,
{
    if i < 0 || i >= parts.len() {
        Ok(seq![])
    } else {
        match spec_port_part(parts[i]) {
            Err(e) => Err(e),
            Ok(ps) => match spec_port_parts(parts, i + 1) {
                Ok(rest) => Ok(ps + rest),
                Err(e) => Err(e),
            },
        }
    }
}

/// A comma-separated port list.
pub open spec fn spec_parse_ports(s: Seq<char>) -> Result<Seq<u16>, PortListErrorView> {
    spec_port_parts(split_on(s, ','), 0)
}

fn push_inclusive_range(out: &mut Vec<u16>, lo: u32, hi: u32)
    requires
        lo <= hi <= 65535,
    ensures
        final(out)@ == old(out)@ + inclusive_range(lo as nat, hi as nat),
{
    let mut p: u32 = lo;
    assert(old(out)@ + Seq::<u16>::new(0, |k: int| (lo + k) as u16) =~= old(out)@);
    while p <= hi
        invariant
            lo <= p <= hi + 1,
            hi <= 65535,
            out@ == old(out)@ + Seq::new((p - lo) as nat, |k: int| (lo + k) as u16),
        decreases hi + 1 - p,
    {
        assert(Seq::new((p + 1 - lo) as nat, |k: int| (lo + k) as u16) =~= Seq::new(
            (p - lo) as nat,
            |k: int| (lo + k) as u16,
        ).push(p as u16));
        out.push(p as u16);
        p += 1;
    }
    assert(Seq::new((p - lo) as nat, |k: int| (lo + k) as u16) =~= inclusive_range(
        lo as nat,
        hi as nat,
    ));
}

fn port_part(raw: &[char], out: &mut Vec<u16>) -> (r: Result<(), PortListError>)
    ensures
        match r {
            Ok(()) => spec_port_part(raw@) matches Ok(ps) && final(out)@ == old(out)@ + ps,
            Err(e) => spec_port_part(raw@) == Err::<Seq<u16>, PortListErrorView>(e@),
        },
{
    let part = trim_exec(raw);
    let dash = chars_of("-");
    if contains_exec(part.as_slice(), dash.as_slice()) {
        proof {
            reveal_strlit("-");
            let i = choose|i: int| crate::text::occurs_at(part@, "-"@, i);
            assert(part@.subrange(i, i + 1)[0] == part@[i]);
            assert(part@[i] == '-');
            lemma_find_char(part@, 0, '-');
            assert(find_char(part@, 0, '-') <= i);
        }
        let (a, b) = match split_once_exec(part.as_slice(), '-') {
            Some(v) => v,
            None => {
                return Err(PortListError::InvalidPort(string_of(part.as_slice())));
            },
        };
        let start_str = trim_exec(a.as_slice());
        let end_str = trim_exec(b.as_slice());
        let start = match parse_u32_exec(start_str.as_slice()) {
            Some(v) => v,
            None => {
                return Err(PortListError::InvalidPort(string_of(start_str.as_slice())));
            },
        };
        let end = match parse_u32_exec(end_str.as_slice()) {
            Some(v) => v,
            None => {
                return Err(PortListError::InvalidPort(string_of(end_str.as_slice())));
            },
        };
        if start > 65535 || end > 65535 {
            return Err(PortListError::RangeOutOfRange(start, end));
        }
        if start > end {
            return Err(PortListError::ReversedRange(start, end));
        }
        push_inclusive_range(out, start, end);
        Ok(())
    } else {
        let p = match parse_u32_exec(part.as_slice()) {
            Some(v) => v,
            None => {
                return Err(PortListError::InvalidPort(string_of(part.as_slice())));
            },
        };
        if p > 65535 {
            return Err(PortListError::PortOutOfRange(p));
        }
        out.push(p as u16);
        Ok(())
    }
}

/// Parses a port list such as "22,80,8080-8082": comma-separated ports and
/// inclusive ranges; an invalid number, a port above 65535 or a reversed
/// range is an error.
pub fn parse_ports(s: &str) -> (r: Result<Vec<u16>, PortListError>)
    ensures
        match r {
            Ok(v) => spec_parse_ports(s@) == Ok::<Seq<u16>, PortListErrorView>(v@),
            Err(e) => spec_parse_ports(s@) == Err::<Seq<u16>, PortListErrorView>(e@),
        },
{
    let text = chars_of(s);
    let parts = split_exec(text.as_slice(), ',');
    let ghost pv = views(parts@);
    let mut ports: Vec<u16> = Vec::new();
    let mut i: usize = 0;
    while i < parts.len()
        invariant
            i <= parts@.len(),
            pv == views(parts@),
            pv == split_on(s@, ','),
            spec_port_parts(pv, 0) == match spec_port_parts(pv, i as int) {
                Ok(rest) => Ok::<Seq<u16>, PortListErrorView>(ports@ + rest),
                Err(e) => Err(e),
            },
        decreases parts@.len() - i,
    {
        assert(pv[i as int] == parts@[i as int]@);
        let ghost before = ports@;
        match port_part(parts[i].as_slice(), &mut ports) {
            Ok(()) => {},
            Err(e) => {
                return Err(e);
            },
        }
        proof {
            let ps = spec_port_part(pv[i as int])->Ok_0;
            match spec_port_parts(pv, i + 1) {
                Ok(rest) => {
                    assert(before + (ps + rest) =~= ports@ + rest);
                },
                Err(e) => {},
            }
        }
        i += 1;
    }
    assert(ports@ + seq![] =~= ports@);
    Ok(ports)
}

/// The ports a subnet scan probes: the given ones, or the default list when
/// none are given.
pub fn scan_ports(ports: &[u16]) -> (r: Vec<u16>)
    ensures
        r@ == if ports@.len() == 0 {
            default_ports()
        } else {
            ports@
        },
{
    if ports.len() == 0 {
        default_port_list()
    } else {
        let mut v: Vec<u16> = Vec::new();
        let mut i: usize = 0;
        while i < ports.len()
            invariant
                i <= ports@.len(),
                v@ == ports@.take(i as int),
            decreases ports@.len() - i,
        {
            v.push(ports[i]);
            i += 1;
            assert(ports@.take(i as int) == ports@.take(i - 1).push(ports@[i - 1]));
        }
        assert(ports@.take(ports@.len() as int) == ports@);
        v
    }
}

// ───────────────────────────── CIDR networks ───────────────────────────────

/// A host address: an IPv4 address as a 32-bit number, or an IPv6 address
/// as a 128-bit number.
#[derive(Debug, Clone, Copy, PartialEq, Eq)]
pub enum HostAddr {
    V4(u32),
    V6(u128),
}

/// A network as written in CIDR notation: the address as given and the
/// prefix length.
#[derive(Debug, Clone, Copy, PartialEq, Eq)]
pub struct IpNetwork {
    pub addr: HostAddr,
    pub prefix_len: u8,
}

/// What parsing a CIDR string with `ipnet` gives: the network, or nothing
/// when the text is not an IPv4 or IPv6 network; a function of the text.
pub uninterp spec fn spec_parse_ipnet(s: Seq<char>) -> Option<IpNetwork>;

/// Calls `<ipnet::IpNet as FromStr>::from_str` and takes the address and
/// prefix length of the result. Trusted: the result is the named parse of
/// the text, and the prefix length is at most 32 for IPv4 and 128 for IPv6
/// (the parser reads at most two or three digits below 33 or 129).
#[verifier::external_body]
fn parse_ipnet(s: &str) -> (r: Option<IpNetwork>)
    ensures
        r == spec_parse_ipnet(s@),
        r matches Some(n) ==> (n.addr is V4 ==> n.prefix_len <= 32) && (n.addr is V6
            ==> n.prefix_len <= 128),
{
    match s.parse::<ipnet::IpNet>() {
        Ok(ipnet::IpNet::V4(n)) => Some(
            IpNetwork { addr: HostAddr::V4(u32::from(n.addr())), prefix_len: n.prefix_len() },
        ),
        Ok(ipnet::IpNet::V6(n)) => Some(
            IpNetwork { addr: HostAddr::V6(u128::from(n.addr())), prefix_len: n.prefix_len() },
        ),
        Err(_) => None,
    }
}

pub open spec fn pow2(n: nat) -> nat
    decreases n,
{
    if n == 0 {
        1
    } else {
        2 * pow2((n - 1) as nat)
    }
}

/// The first and last host address of a network: the network address with
/// the host bits cleared and the last one with them set; for IPv4 networks
/// longer than /31 both are excluded.
pub open spec fn host_bounds(net: IpNetwork) -> (nat, nat) {
    match net.addr {
        HostAddr::V4(a) => {
            let size = pow2((32 - net.prefix_len) as nat);
            let network = (a as nat) - (a as nat) % size;
            let broadcast = network + size - 1;
            if net.prefix_len < 31 {
                ((network + 1) as nat, (broadcast - 1) as nat)
            } else {
                (network as nat, broadcast as nat)
            }
        },
        HostAddr::V6(a) => {
            let size = pow2((128 - net.prefix_len) as nat);
            let network = (a as nat) - (a as nat) % size;
            (network as nat, (network + size - 1) as nat)
        },
    }
}

/// The host addresses of a network, in increasing order.
pub open spec fn spec_hosts(net: IpNetwork) -> Seq<HostAddr> {
    let (lo, hi) = host_bounds(net);
    match net.addr {
        HostAddr::V4(_) => Seq::new((hi + 1 - lo) as nat, |k: int| HostAddr::V4((lo + k) as u32)),
        HostAddr::V6(_) => Seq::new((hi + 1 - lo) as nat, |k: int| HostAddr::V6((lo + k) as u128)),
    }
}

/// A CIDR string that is not a network.
#[derive(Debug, Clone, PartialEq, Eq)]
pub struct CidrError {
    pub cidr: String,
}

impl CidrError {
    /// The message the command prints for this error.
    pub fn message(&self) -> (m: String)
        ensures
            m@ == "无效 CIDR: "@ + self.cidr@,
    {
        let mut m = String::from_str("无效 CIDR: ");
        m.append(self.cidr.as_str());
        m
    }
}

proof fn lemma_pow2_pos(n: nat)
    ensures
        pow2(n) >= 1,
    decreases n,
{
    if n > 0 {
        lemma_pow2_pos((n - 1) as nat);
    }
}

proof fn lemma_pow2_mono(m: nat, n: nat)
    requires
        m <= n,
    ensures
        pow2(m) <= pow2(n),
    decreases n,
{
    if m < n {
        lemma_pow2_mono(m, (n - 1) as nat);
    }
}

proof fn lemma_pow2_add(m: nat, n: nat)
    ensures
        pow2(m + n) == pow2(m) * pow2(n),
    decreases m,
{
    if m > 0 {
        let k = (m - 1) as nat;
        lemma_pow2_add(k, n);
        assert(pow2(m + n) == 2 * pow2(k + n));
        let x = pow2(k);
        let y = pow2(n);
        assert(pow2(m) == 2 * x);
        assert(2 * (x * y) == (2 * x) * y) by (nonlinear_arith);
    } else {
        let y = pow2(n);
        assert(pow2(m) == 1);
        assert(1 * y == y);
    }
}

/// Rounding `a < m * size` down to a multiple of `size` leaves room for one
/// more block of `size` below `m * size`.
proof fn lemma_round_down_bound(a: int, size: int, m: int)
    requires
        size >= 1,
        0 <= a < size * m,
    ensures
        a - a % size + size <= size * m,
        a % size <= a,
{
    let q = a / size;
    let r = a % size;
    assert(a == size * q + r && 0 <= r < size) by (nonlinear_arith)
        requires
            size >= 1,
            q == a / size,
            r == a % size,
    ;
    assert(q >= 0 && q + 1 <= m) by (nonlinear_arith)
        requires
            a == size * q + r,
            0 <= r < size,
            0 <= a < size * m,
            size >= 1,
    ;
    assert(size * q + size <= size * m) by (nonlinear_arith)
        requires
            q + 1 <= m,
            size >= 1,
    ;
}

proof fn lemma_pow2_values()
    ensures
        pow2(2) == 4,
        pow2(32) == 0x1_0000_0000,
        pow2(127) == 0x8000_0000_0000_0000_0000_0000_0000_0000,
        pow2(128) == 0x1_0000_0000_0000_0000_0000_0000_0000_0000,
{
    reveal_with_fuel(pow2, 17);
    assert(pow2(16) == 0x10000);
    assert(pow2(15) == 0x8000);
    lemma_pow2_add(16, 16);
    assert(pow2(32) == 0x1_0000_0000);
    lemma_pow2_add(16, 15);
    assert(pow2(31) == 0x8000_0000);
    lemma_pow2_add(32, 32);
    assert(pow2(64) == 0x1_0000_0000_0000_0000);
    lemma_pow2_add(32, 31);
    assert(pow2(63) == 0x8000_0000_0000_0000);
    lemma_pow2_add(64, 64);
    lemma_pow2_add(64, 63);
}

/// `2^n` for `n <= 127`.
fn pow2_exec(n: u32) -> (r: u128)
    requires
        n <= 127,
    ensures
        r as nat == pow2(n as nat),
{
    let mut r: u128 = 1;
    let mut k: u32 = 0;
    while k < n
        invariant
            k <= n <= 127,
            r as nat == pow2(k as nat),
        decreases n - k,
    {
        proof {
            lemma_pow2_mono((k + 1) as nat, 127);
            lemma_pow2_values();
        }
        r = r * 2;
        k += 1;
    }
    r
}

/// The host addresses of a network (as `ipnet`'s `hosts` gives them).
pub fn network_hosts(net: IpNetwork) -> (r: Vec<HostAddr>)
    requires
        net.addr is V4 ==> net.prefix_len <= 32,
        net.addr is V6 ==> net.prefix_len <= 128,
    ensures
        r@ == spec_hosts(net),
{
    let (lo, hi): (u128, u128) = match net.addr {
        HostAddr::V4(a) => {
            let size = pow2_exec((32 - net.prefix_len) as u32);
            proof {
                lemma_pow2_pos((32 - net.prefix_len) as nat);
                lemma_pow2_mono((32 - net.prefix_len) as nat, 32);
                lemma_pow2_values();
                lemma_pow2_add((32 - net.prefix_len) as nat, net.prefix_len as nat);
                lemma_round_down_bound(a as int, size as int, pow2(net.prefix_len as nat) as int);
                if net.prefix_len < 31 {
                    lemma_pow2_mono(2, (32 - net.prefix_len) as nat);
                }
            }
            let network = a as u128 - (a as u128) % size;
            let broadcast = network + size - 1;
            if net.prefix_len < 31 {
                (network + 1, broadcast - 1)
            } else {
                (network, broadcast)
            }
        },
        HostAddr::V6(a) => {
            if net.prefix_len == 0 {
                proof {
                    lemma_pow2_values();
                    assert((a as nat) % pow2(128) == a);
                }
                (0, u128::MAX)
            } else {
                let size = pow2_exec((128 - net.prefix_len) as u32);
                proof {
                    lemma_pow2_pos((128 - net.prefix_len) as nat);
                    lemma_pow2_add((128 - net.prefix_len) as nat, net.prefix_len as nat);
                    lemma_pow2_values();
                    lemma_round_down_bound(a as int, size as int, pow2(net.prefix_len as nat) as int);
                }
                let network = a - a % size;
                (network, network + (size - 1))
            }
        },
    };
    assert((lo as nat, hi as nat) == host_bounds(net));
    let mut r: Vec<HostAddr> = Vec::new();
    let mut x: u128 = lo;
    loop
        invariant
            lo <= x <= hi,
            (lo as nat, hi as nat) == host_bounds(net),
            spec_hosts(net).len() == hi + 1 - lo,
            r@ == spec_hosts(net).take((x - lo) as int),
        decreases hi - x,
    {
        let h = match net.addr {
            HostAddr::V4(_) => HostAddr::V4(#[verifier::truncate] (x as u32)),
            HostAddr::V6(_) => HostAddr::V6(x),
        };
        assert(h == spec_hosts(net)[x - lo]);
        assert(spec_hosts(net).take((x + 1 - lo) as int) == spec_hosts(net).take((x - lo) as int).push(h));
        r.push(h);
        if x == hi {
            assert(spec_hosts(net).take((x + 1 - lo) as int) == spec_hosts(net));
            return r;
        }
        x += 1;
    }
}

/// An IPv4 network shorter than /31 has `2^(32 - p) - 2` hosts, all strictly
/// between its network address and its broadcast address, in increasing
/// order.
pub proof fn law_ipv4_hosts_exclude_network_and_broadcast(a: u32, p: u8)
    requires
        p < 31,
    ensures
        ({
            let net = IpNetwork { addr: HostAddr::V4(a), prefix_len: p };
            let size = pow2((32 - p) as nat);
            let network = (a as nat) - (a as nat) % size;
            let hs = spec_hosts(net);
            &&& hs.len() == size - 2
            &&& forall|k: int|
                0 <= k < hs.len() ==> (#[trigger] hs[k] matches HostAddr::V4(h) && network < h
                    < network + size - 1 && h == network + 1 + k)
        }),
{
    let size = pow2((32 - p) as nat);
    lemma_pow2_pos((32 - p) as nat);
    lemma_pow2_mono(2, (32 - p) as nat);
    lemma_pow2_values();
    lemma_pow2_add((32 - p) as nat, p as nat);
    lemma_round_down_bound(a as int, size as int, pow2(p as nat) as int);
}

/// All host addresses of a CIDR network (for a /24, the 254 addresses
/// between the network and the broadcast address).
pub fn cidr_to_host_ips(cidr: &str) -> (r: Result<Vec<HostAddr>, CidrError>)
    ensures
        match r {
            Ok(v) => spec_parse_ipnet(cidr@) matches Some(n) && v@ == spec_hosts(n),
            Err(e) => spec_parse_ipnet(cidr@) is None && e.cidr@ == cidr@,
        },
{
    match parse_ipnet(cidr) {
        Some(net) => Ok(network_hosts(net)),
        None => Err(CidrError { cidr: cidr.to_string() }),
    }
}

// ───────────────────────────── interfaces ──────────────────────────────────

/// One address of a network interface, as the interface listing gives it.
#[derive(Debug, Clone)]
pub struct InterfaceAddr {
    /// The address, e.g. "192.168.1.100".
    pub ip: String,
    /// The address with its prefix length, e.g. "192.168.1.100/24".
    pub network: String,
    pub is_ipv4: bool,
    pub is_loopback: bool,
}

/// A network interface.
#[derive(Debug, Clone)]
pub struct InterfaceInfo {
    pub name: String,
    /// The MAC address, e.g. "aa:bb:cc:dd:ee:ff".
    pub mac: Option<String>,
    pub addrs: Vec<InterfaceAddr>,
}

pub struct InterfaceAddrView {
    pub ip: Seq<char>,
    pub network: Seq<char>,
    pub is_ipv4: bool,
    pub is_loopback: bool,
}

pub struct InterfaceInfoView {
    pub name: Seq<char>,
    pub mac: Option<Seq<char>>,
    pub addrs: Seq<InterfaceAddrView>,
}

impl View for InterfaceAddr {
    type V = InterfaceAddrView;

    open spec fn view(&self) -> InterfaceAddrView {
        InterfaceAddrView {
            ip: self.ip@,
            network: self.network@,
            is_ipv4: self.is_ipv4,
            is_loopback: self.is_loopback,
        }
    }
}

impl View for InterfaceInfo {
    type V = InterfaceInfoView;

    open spec fn view(&self) -> InterfaceInfoView {
        InterfaceInfoView {
            name: self.name@,
            mac: opt_view(self.mac),
            addrs: Seq::new(self.addrs@.len(), |i: int| self.addrs@[i]@),
        }
    }
}

pub open spec fn iface_views(v: Seq<InterfaceInfo>) -> Seq<InterfaceInfoView> {
    Seq::new(v.len(), |i: int| v[i]@)
}

/// The node of one IPv4 address of an interface; the interface holding the
/// default route is the local one.
pub open spec fn iface_node(
    iface: InterfaceInfoView,
    a: InterfaceAddrView,
    primary: Option<Seq<char>>,
) -> NodeView {
    NodeView {
        ip: a.ip,
        hostname: None,
        ports: seq![],
        is_local: primary == Some(iface.name),
        mac: iface.mac,
        interface: Some(iface.name),
    }
}

/// The nodes of the IPv4 addresses among `addrs`.
pub open spec fn addr_nodes(
    iface: InterfaceInfoView,
    addrs: Seq<InterfaceAddrView>,
    primary: Option<Seq<char>>,
) -> Seq<NodeView>
    decreases addrs.len(),
{
    if addrs.len() == 0 {
        seq![]
    } else {
        let rest = addr_nodes(iface, addrs.drop_last(), primary);
        if addrs.last().is_ipv4 {
            rest.push(iface_node(iface, addrs.last(), primary))
        } else {
            rest
        }
    }
}

/// The nodes of all interfaces, in order; IPv6 addresses are skipped.
pub open spec fn interface_nodes(ifaces: Seq<InterfaceInfoView>, primary: Option<Seq<char>>) -> Seq<
    NodeView,
>
    decreases ifaces.len(),
{
    if ifaces.len() == 0 {
        seq![]
    } else {
        interface_nodes(ifaces.drop_last(), primary) + addr_nodes(
            ifaces.last(),
            ifaces.last().addrs,
            primary,
        )
    }
}

/// The local interface nodes: one per IPv4 address of each interface, the
/// one of the interface with the default route (`primary`) marked local.
pub fn scan_interfaces(ifaces: &Vec<InterfaceInfo>, primary: &Option<String>) -> (r: Vec<Node>)
    ensures
        node_views(r@) == interface_nodes(iface_views(ifaces@), opt_view(*primary)),
{
    let ghost iv = iface_views(ifaces@);
    let ghost pr = opt_view(*primary);
    let mut nodes: Vec<Node> = Vec::new();
    let mut i: usize = 0;
    while i < ifaces.len()
        invariant
            i <= ifaces@.len(),
            iv == iface_views(ifaces@),
            pr == opt_view(*primary),
            node_views(nodes@) == interface_nodes(iv.take(i as int), pr),
        decreases ifaces@.len() - i,
    {
        let iface = &ifaces[i];
        let ghost fv = iface@;
        assert(iv[i as int] == fv);
        let is_primary = match primary {
            Some(p) => crate::text::str_eq(p.as_str(), iface.name.as_str()),
            None => false,
        };
        assert(is_primary == (pr == Some(fv.name)));
        let ghost start = node_views(nodes@);
        let mut j: usize = 0;
        while j < iface.addrs.len()
            invariant
                j <= fv.addrs.len(),
                fv == iface@,
                is_primary == (pr == Some(fv.name)),
                node_views(nodes@) == start + addr_nodes(fv, fv.addrs.take(j as int), pr),
            decreases fv.addrs.len() - j,
        {
            let a = &iface.addrs[j];
            assert(fv.addrs[j as int] == a@);
            assert(fv.addrs.take(j + 1).drop_last() == fv.addrs.take(j as int));
            assert(fv.addrs.take(j + 1).last() == a@);
            if a.is_ipv4 {
                let n = Node {
                    ip: a.ip.clone(),
                    hostname: None,
                    ports: Vec::new(),
                    is_local: is_primary,
                    mac: crate::data_manager::copy_opt_string(&iface.mac),
                    interface: Some(iface.name.clone()),
                };
                assert(n@ == iface_node(fv, a@, pr));
                proof {
                    lemma_node_views_push(nodes@, n);
                }
                nodes.push(n);
            }
            j += 1;
        }
        assert(fv.addrs.take(fv.addrs.len() as int) == fv.addrs);
        assert(iv.take(i + 1).drop_last() == iv.take(i as int));
        assert(iv.take(i + 1).last() == fv);
        i += 1;
    }
    assert(iv.take(ifaces@.len() as int) == iv);
    nodes
}

/// The first IPv4, non-loopback address among `addrs`.
pub open spec fn first_v4(addrs: Seq<InterfaceAddrView>) -> Option<InterfaceAddrView>
    decreases addrs.len(),
{
    if addrs.len() == 0 {
        None
    } else if addrs[0].is_ipv4 && !addrs[0].is_loopback {
        Some(addrs[0])
    } else {
        first_v4(addrs.drop_first())
    }
}

/// The first IPv4, non-loopback address of the first interface named
/// `name` that has one.
pub open spec fn primary_addr(ifaces: Seq<InterfaceInfoView>, name: Seq<char>) -> Option<
    InterfaceAddrView,
>
    decreases ifaces.len(),
{
    if ifaces.len() == 0 {
        None
    } else if ifaces[0].name == name && first_v4(ifaces[0].addrs) is Some {
        first_v4(ifaces[0].addrs)
    } else {
        primary_addr(ifaces.drop_first(), name)
    }
}

fn primary_addr_exec<'a>(ifaces: &'a Vec<InterfaceInfo>, name: &String) -> (r: Option<&'a InterfaceAddr>)
    ensures
        match r {
            Some(a) => primary_addr(iface_views(ifaces@), name@) == Some(a@),
            None => primary_addr(iface_views(ifaces@), name@) is None,
        },
{
    let ghost iv = iface_views(ifaces@);
    let mut i: usize = 0;
    assert(iv.skip(0) == iv);
    while i < ifaces.len()
        invariant
            i <= ifaces@.len(),
            iv == iface_views(ifaces@),
            primary_addr(iv, name@) == primary_addr(iv.skip(i as int), name@),
        decreases ifaces@.len() - i,
    {
        let iface = &ifaces[i];
        assert(iv.skip(i as int)[0] == iface@);
        assert(iv.skip(i as int).drop_first() == iv.skip(i + 1));
        if crate::text::str_eq(iface.name.as_str(), name.as_str()) {
            let ghost av = iface@.addrs;
            let mut j: usize = 0;
            assert(av.skip(0) == av);
            while j < iface.addrs.len()
                invariant
                    j <= av.len(),
                    av == iface@.addrs,
                    iv == iface_views(ifaces@),
                    first_v4(av) == first_v4(av.skip(j as int)),
                    primary_addr(iv, name@) == (if first_v4(av) is Some {
                        first_v4(av)
                    } else {
                        primary_addr(iv.skip(i + 1), name@)
                    }),
                decreases av.len() - j,
            {
                let a = &iface.addrs[j];
                assert(av[j as int] == a@);
                assert(av.skip(j as int)[0] == a@);
                assert(av.skip(j as int).len() > 0);
                assert(av.skip(j as int).drop_first() == av.skip(j + 1));
                if a.is_ipv4 && !a.is_loopback {
                    assert(first_v4(av.skip(j as int)) == Some(a@));
                    return Some(a);
                }
                j += 1;
            }
            assert(av.skip(av.len() as int).len() == 0);
        }
        i += 1;
    }
    assert(iv.skip(ifaces@.len() as int).len() == 0);
    None
}

/// The subnet (address with prefix, e.g. "192.168.1.100/24") of the first
/// IPv4, non-loopback address of the interface holding the default route.
pub fn default_cidr(ifaces: &Vec<InterfaceInfo>, primary: &Option<String>) -> (r: Option<String>)
    ensures
        opt_view(r) == match opt_view(*primary) {
            None => None,
            Some(p) => match primary_addr(iface_views(ifaces@), p) {
                Some(a) => Some(a.network),
                None => None,
            },
        },
{
    match primary {
        None => None,
        Some(p) => match primary_addr_exec(ifaces, p) {
            Some(a) => Some(a.network.clone()),
            None => None,
        },
    }
}

/// The first IPv4, non-loopback address of the interface holding the
/// default route: the local IP.
pub fn local_ip(ifaces: &Vec<InterfaceInfo>, primary: &Option<String>) -> (r: Option<String>)
    ensures
        opt_view(r) == match opt_view(*primary) {
            None => None,
            Some(p) => match primary_addr(iface_views(ifaces@), p) {
                Some(a) => Some(a.ip),
                None => None,
            },
        },
{
    match primary {
        None => None,
        Some(p) => match primary_addr_exec(ifaces, p) {
            Some(a) => Some(a.ip.clone()),
            None => None,
        },
    }
}

// ───────────────────────────── default route output ────────────────────────

/// The value of the first line of `route -n get default` output (lines
/// trimmed) that starts with `key`: the text after its first `:`, trimmed.
pub open spec fn route_value(ls: Seq<Seq<char>>, key: Seq<char>) -> Option<Seq<char>>
    decreases ls.len(),
{
    if ls.len() == 0 {
        None
    } else if starts_with(trim(ls[0]), key) && split_once(trim(ls[0]), ':') is Some {
        Some(trim(split_once(trim(ls[0]), ':')->Some_0.1))
    } else {
        route_value(ls.drop_first(), key)
    }
}

/// The first `gateway:` value of `route -n get default` output that is
/// neither empty nor `link#`.
pub open spec fn route_gateway(ls: Seq<Seq<char>>) -> Option<Seq<char>>
    decreases ls.len(),
{
    if ls.len() == 0 {
        None
    } else {
        let l = trim(ls[0]);
        if starts_with(l, "gateway:"@) && split_once(l, ':') is Some {
            let gw = trim(split_once(l, ':')->Some_0.1);
            if gw != "link#"@ && gw.len() > 0 {
                Some(gw)
            } else {
                route_gateway(ls.drop_first())
            }
        } else {
            route_gateway(ls.drop_first())
        }
    }
}

/// The token after the first `key` token of `ip route show default` output.
pub open spec fn token_after(tokens: Seq<Seq<char>>, key: Seq<char>) -> Option<Seq<char>>
    decreases tokens.len(),
{
    if tokens.len() < 2 {
        None
    } else if tokens[0] == key {
        Some(tokens[1])
    } else {
        token_after(tokens.drop_first(), key)
    }
}

fn route_line_value(line: &[char], key: &str) -> (r: Option<Vec<char>>)
    ensures
        match r {
            Some(v) => starts_with(trim(line@), key@) && split_once(trim(line@), ':') is Some && v@
                == trim(split_once(trim(line@), ':')->Some_0.1),
            None => !(starts_with(trim(line@), key@) && split_once(trim(line@), ':') is Some),
        },
{
    let l = trim_exec(line);
    let k = chars_of(key);
    if !starts_with_exec(l.as_slice(), k.as_slice()) {
        return None;
    }
    match split_once_exec(l.as_slice(), ':') {
        Some((_, b)) => Some(trim_exec(b.as_slice())),
        None => None,
    }
}

/// The interface of the default route in `route -n get default` output
/// (macOS): the value of the first `interface:` line.
pub fn interface_from_route_output(text: &str) -> (r: Option<String>)
    ensures
        opt_view(r) == route_value(lines(text@), "interface:"@),
{
    let t = chars_of(text);
    let ls = lines_exec(t.as_slice());
    let ghost lv = views(ls@);
    let mut i: usize = 0;
    assert(lv.skip(0) == lv);
    while i < ls.len()
        invariant
            i <= ls@.len(),
            lv == views(ls@),
            lv == lines(text@),
            route_value(lv, "interface:"@) == route_value(lv.skip(i as int), "interface:"@),
        decreases ls@.len() - i,
    {
        assert(lv.skip(i as int)[0] == ls@[i as int]@);
        assert(lv.skip(i as int).drop_first() == lv.skip(i + 1));
        match route_line_value(ls[i].as_slice(), "interface:") {
            Some(v) => {
                return Some(string_of(v.as_slice()));
            },
            None => {},
        }
        i += 1;
    }
    assert(lv.skip(ls@.len() as int).len() == 0);
    None
}

/// The default gateway in `route -n get default` output (macOS): the first
/// `gateway:` value that is neither empty nor `link#`.
pub fn gateway_from_route_output(text: &str) -> (r: Option<String>)
    ensures
        opt_view(r) == route_gateway(lines(text@)),
{
    let t = chars_of(text);
    let ls = lines_exec(t.as_slice());
    let ghost lv = views(ls@);
    let link = chars_of("link#");
    let mut i: usize = 0;
    assert(lv.skip(0) == lv);
    while i < ls.len()
        invariant
            i <= ls@.len(),
            lv == views(ls@),
            lv == lines(text@),
            link@ == "link#"@,
            route_gateway(lv) == route_gateway(lv.skip(i as int)),
        decreases ls@.len() - i,
    {
        assert(lv.skip(i as int)[0] == ls@[i as int]@);
        assert(lv.skip(i as int).drop_first() == lv.skip(i + 1));
        match route_line_value(ls[i].as_slice(), "gateway:") {
            Some(gw) => {
                if !chars_eq(gw.as_slice(), link.as_slice()) && gw.len() > 0 {
                    return Some(string_of(gw.as_slice()));
                }
            },
            None => {},
        }
        i += 1;
    }
    assert(lv.skip(ls@.len() as int).len() == 0);
    None
}

fn token_after_exec(tokens: &Vec<Vec<char>>, key: &str) -> (r: Option<String>)
    ensures
        opt_view(r) == token_after(views(tokens@), key@),
{
    let ghost tv = views(tokens@);
    let k = chars_of(key);
    let mut i: usize = 0;
    assert(tv.skip(0) == tv);
    while i < tokens.len() && i + 1 < tokens.len()
        invariant
            i <= tokens@.len(),
            tv == views(tokens@),
            k@ == key@,
            token_after(tv, key@) == token_after(tv.skip(i as int), key@),
        decreases tokens@.len() - i,
    {
        assert(tv.skip(i as int)[0] == tokens@[i as int]@);
        assert(tv.skip(i as int)[1] == tokens@[i + 1]@);
        assert(tv.skip(i as int).drop_first() == tv.skip(i + 1));
        if chars_eq(tokens[i].as_slice(), k.as_slice()) {
            return Some(string_of(tokens[i + 1].as_slice()));
        }
        i += 1;
    }
    assert(tv.skip(i as int).len() < 2);
    None
}

/// The interface of the default route in `ip route show default` output
/// (Linux): the token after the first `dev`.
pub fn interface_from_ip_route(text: &str) -> (r: Option<String>)
    ensures
        opt_view(r) == token_after(ws_tokens(text@), "dev"@),
{
    let t = chars_of(text);
    let tokens = split_whitespace_exec(t.as_slice());
    token_after_exec(&tokens, "dev")
}

/// The default gateway in `ip route show default` output (Linux): the token
/// after the first `via`.
pub fn gateway_from_ip_route(text: &str) -> (r: Option<String>)
    ensures
        opt_view(r) == token_after(ws_tokens(text@), "via"@),
{
    let t = chars_of(text);
    let tokens = split_whitespace_exec(t.as_slice());
    token_after_exec(&tokens, "via")
}

// ───────────────────────────── probed hosts ────────────────────────────────

/// The node of a probed host: none when no port answered, else the host with
/// its open ports and host name, not local, without MAC or interface.
pub fn probe_result_node(ip: &str, open_ports: Vec<u16>, hostname: Option<String>) -> (r: Option<Node>)
    ensures
        open_ports@.len() == 0 ==> r is None,
        open_ports@.len() > 0 ==> r is Some && r->0@ == (NodeView {
            ip: ip@,
            hostname: opt_view(hostname),
            ports: open_ports@,
            is_local: false,
            mac: None,
            interface: None,
        }),
{
    if open_ports.len() == 0 {
        return None;
    }
    Some(Node {
        ip: ip.to_owned(),
        hostname,
        ports: open_ports,
        is_local: false,
        mac: None,
        interface: None,
    })
}

} // verus!
