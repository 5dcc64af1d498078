//! Connection snapshots: parsing of macOS `netstat -an` output and of Linux
//! `/proc/net/{tcp,tcp6,udp}` tables into edges, and the loopback / LAN
//! filters applied to them. Reading the command output or the files is left
//! to the caller; everything computed from that text is here.
use vstd::prelude::*;
use crate::data_manager::{edge_views, lemma_edge_views_push, Edge, EdgeView};
use crate::labels::{in_172_16, in_172_16_12};
use crate::text::{
    chars_eq, chars_of, dec, find_char, find_char_exec, lemma_find_char, lines, lines_exec,
    lowercase_chars, parse_bounded, parse_bounded_exec, parse_u16, parse_u16_exec, push_dec,
    slice_vec, spec_to_lowercase, spec_to_uppercase, split_once, split_once_exec,
    split_whitespace_exec, starts_with, starts_with_exec, str_eq, str_starts_with, string_of,
    uppercase_chars, views, ws_tokens, char_from_digit, all_digits, digits_value, digit_value,
};

verus! {

// ───────────────────────────── filters ─────────────────────────────────────

pub open spec fn spec_is_loopback(ip: Seq<char>) -> bool {
    starts_with(ip, "127."@) || ip == "::1"@ || ip == "0.0.0.0"@
}

/// The private IPv4 ranges: 10/8, 172.16/12 and 192.168/16.
pub open spec fn spec_is_private(ip: Seq<char>) -> bool {
    ||| starts_with(ip, "10."@)
    ||| starts_with(ip, "192.168."@)
    ||| in_172_16(ip)
}

pub open spec fn spec_should_include(e: EdgeView, local_only: bool, exclude_loopback: bool) -> bool {
    &&& !(exclude_loopback && (spec_is_loopback(e.src) || spec_is_loopback(e.dst)))
    &&& !(local_only && !spec_is_private(e.dst))
}

/// Loopback addresses: `127.*`, `::1` and `0.0.0.0`.
pub fn is_loopback(ip: &str) -> (r: bool)
    ensures
        r == spec_is_loopback(ip@),
{
    str_starts_with(ip, "127.") || str_eq(ip, "::1") || str_eq(ip, "0.0.0.0")
}

/// Private IPv4 addresses: 10/8, 172.16/12 and 192.168/16.
pub fn is_private(ip: &str) -> (r: bool)
    ensures
        r == spec_is_private(ip@),
{
    str_starts_with(ip, "10.") || str_starts_with(ip, "192.168.") || in_172_16_12(ip)
}

/// Whether an edge passes the `--exclude-loopback` and `--local-only` filters.
pub fn should_include(edge: &Edge, local_only: bool, exclude_loopback: bool) -> (r: bool)
    ensures
        r == spec_should_include(edge@, local_only, exclude_loopback),
{
    if exclude_loopback && (is_loopback(edge.src.as_str()) || is_loopback(edge.dst.as_str())) {
        return false;
    }
    if local_only && !is_private(edge.dst.as_str()) {
        return false;
    }
    true
}

// ───────────────────────────── macOS netstat ───────────────────────────────

/// The last index before `j` holding `c`, or -1.
pub open spec fn rfind_char(s: Seq<char>, j: int, c: char) -> int
    decreases j,
{
    if j <= 0 || j > s.len() {
        -1
    } else if s[j - 1] == c {
        j - 1
    } else {
        rfind_char(s, j - 1, c)
    }
}

pub proof fn lemma_rfind_char(s: Seq<char>, j: int, c: char)
    requires
        0 <= j <= s.len(),
    ensures
        -1 <= rfind_char(s, j, c) < j,
        rfind_char(s, j, c) >= 0 ==> s[rfind_char(s, j, c)] == c,
        forall|k: int| rfind_char(s, j, c) < k < j ==> s[k] != c,
    decreases j,
{
    if j > 0 && s[j - 1] != c {
        lemma_rfind_char(s, j - 1, c);
    }
}

fn rfind_char_exec(s: &[char], c: char) -> (r: Option<usize>)
    ensures
        match r {
            Some(k) => rfind_char(s@, s@.len() as int, c) == k,
            None => rfind_char(s@, s@.len() as int, c) == -1,
        },
{
    let mut j: usize = s.len();
    while j > 0 && s[j - 1] != c
        invariant
            j <= s@.len(),
            rfind_char(s@, s@.len() as int, c) == rfind_char(s@, j as int, c),
        decreases j,
    {
        j -= 1;
    }
    if j == 0 {
        None
    } else {
        Some(j - 1)
    }
}

/// A `netstat` address `a.b.c.d.port`, `[v6].port` or `*.port` (listening on
/// every interface, given as `0.0.0.0`); `*` and `*.*` have no address.
pub open spec fn spec_split_addr_port(s: Seq<char>) -> Option<(Seq<char>, u16)> {
    if s == "*.*"@ || s == "*"@ {
        None
    } else if s.len() > 0 && s[0] == '[' {
        let e = find_char(s, 0, ']');
        if e + 1 >= s.len() || (s[e + 1] as u32) > 0x7f {
            None
        } else {
            match parse_u16(s.subrange(e + 2, s.len() as int)) {
                Some(p) => Some((s.subrange(1, e), p as u16)),
                None => None,
            }
        }
    } else if starts_with(s, "*."@) {
        let ps = s.subrange(2, s.len() as int);
        if ps == "*"@ {
            None
        } else {
            match parse_u16(ps) {
                Some(p) => Some(("0.0.0.0"@, p as u16)),
                None => None,
            }
        }
    } else {
        let d = rfind_char(s, s.len() as int, '.');
        if d < 0 {
            None
        } else {
            match parse_u16(s.subrange(d + 1, s.len() as int)) {
                Some(p) => Some((s.subrange(0, d), p as u16)),
                None => None,
            }
        }
    }
}

pub open spec fn addr_port_view(r: Option<(String, u16)>) -> Option<(Seq<char>, u16)> {
    match r {
        Some((a, p)) => Some((a@, p)),
        None => None,
    }
}

fn split_addr_port_chars(s: &[char]) -> (r: Option<(String, u16)>)
    ensures
        addr_port_view(r) == spec_split_addr_port(s@),
{
    let star_star = chars_of("*.*");
    let star = chars_of("*");
    if chars_eq(s, star_star.as_slice()) || chars_eq(s, star.as_slice()) {
        return None;
    }
    if s.len() > 0 && s[0] == '[' {
        let e = find_char_exec(s, 0, ']');
        proof {
            lemma_find_char(s@, 0, ']');
        }
        if e >= s.len() - 1 || (s[e + 1] as u32) > 0x7f {
            return None;
        }
        let port_str = slice_vec(s, e + 2, s.len());
        match parse_u16_exec(port_str.as_slice()) {
            Some(p) => {
                let ip = slice_vec(s, 1, e);
                return Some((string_of(ip.as_slice()), p));
            },
            None => {
                return None;
            },
        }
    }
    let star_dot = chars_of("*.");
    proof {
        reveal_strlit("*.");
    }
    if starts_with_exec(s, star_dot.as_slice()) {
        let ps = slice_vec(s, 2, s.len());
        if chars_eq(ps.as_slice(), star.as_slice()) {
            return None;
        }
        match parse_u16_exec(ps.as_slice()) {
            Some(p) => {
                return Some(("0.0.0.0".to_string(), p));
            },
            None => {
                return None;
            },
        }
    }
    match rfind_char_exec(s, '.') {
        None => None,
        Some(d) => {
            proof {
                lemma_rfind_char(s@, s@.len() as int, '.');
            }
            let port_str = slice_vec(s, d + 1, s.len());
            match parse_u16_exec(port_str.as_slice()) {
                Some(p) => {
                    let ip = slice_vec(s, 0, d);
                    Some((string_of(ip.as_slice()), p))
                },
                None => None,
            }
        },
    }
}

/// Splits a `netstat` address into IP and port.
pub fn split_addr_port(s: &str) -> (r: Option<(String, u16)>)
    ensures
        addr_port_view(r) == spec_split_addr_port(s@),
{
    let v = chars_of(s);
    split_addr_port_chars(v.as_slice())
}

/// One line of `netstat -an` output: at least five columns, a protocol
/// column starting with `tcp` or `udp` (in any case), local and foreign
/// addresses in columns 3 and 4, and for TCP a state in column 5.
pub open spec fn spec_parse_netstat_line(line: Seq<char>, protocol: Seq<char>) -> Option<EdgeView> {
    let cols = ws_tokens(line);
    if cols.len() < 5 {
        None
    } else {
        let proto_col = spec_to_lowercase(cols[0]);
        if !starts_with(proto_col, "tcp"@) && !starts_with(proto_col, "udp"@) {
            None
        } else {
            match (spec_split_addr_port(cols[3]), spec_split_addr_port(cols[4])) {
                (Some((src, src_port)), Some((dst, dst_port))) => {
                    if src == "*"@ || dst == "*"@ {
                        None
                    } else {
                        Some(
                            EdgeView {
                                src,
                                dst,
                                protocol,
                                src_port,
                                dst_port,
                                state: if cols.len() >= 6 && protocol == "TCP"@ {
                                    Some(cols[5])
                                } else {
                                    None
                                },
                                count: 1,
                            },
                        )
                    }
                },
                _ => None,
            }
        }
    }
}

pub open spec fn opt_edge_view(r: Option<Edge>) -> Option<EdgeView> {
    match r {
        Some(e) => Some(e@),
        None => None,
    }
}

fn parse_netstat_line_chars(line: &[char], protocol: &str) -> (r: Option<Edge>)
    ensures
        opt_edge_view(r) == spec_parse_netstat_line(line@, protocol@),
{
    let cols = split_whitespace_exec(line);
    if cols.len() < 5 {
        return None;
    }
    let ghost cv = views(cols@);
    assert(cv[0] == cols@[0]@ && cv[3] == cols@[3]@ && cv[4] == cols@[4]@);
    let proto_col = lowercase_chars(cols[0].as_slice());
    let tcp = chars_of("tcp");
    let udp = chars_of("udp");
    if !starts_with_exec(proto_col.as_slice(), tcp.as_slice()) && !starts_with_exec(
        proto_col.as_slice(),
        udp.as_slice(),
    ) {
        return None;
    }
    let (src, src_port) = match split_addr_port_chars(cols[3].as_slice()) {
        Some(v) => v,
        None => {
            return None;
        },
    };
    let (dst, dst_port) = match split_addr_port_chars(cols[4].as_slice()) {
        Some(v) => v,
        None => {
            return None;
        },
    };
    if str_eq(src.as_str(), "*") || str_eq(dst.as_str(), "*") {
        return None;
    }
    let state = if cols.len() >= 6 && str_eq(protocol, "TCP") {
        assert(cv[5] == cols@[5]@);
        Some(string_of(cols[5].as_slice()))
    } else {
        None
    };
    Some(Edge { src, dst, protocol: protocol.to_string(), src_port, dst_port, state, count: 1 })
}

/// Parses one line of `netstat -an -p tcp|udp` output.
pub fn parse_netstat_line(line: &str, protocol: &str) -> (r: Option<Edge>)
    ensures
        opt_edge_view(r) == spec_parse_netstat_line(line@, protocol@),
{
    let v = chars_of(line);
    parse_netstat_line_chars(v.as_slice(), protocol)
}

/// The edges of the lines of `netstat` output that parse.
pub open spec fn spec_netstat_edges(ls: Seq<Seq<char>>, protocol: Seq<char>) -> Seq<EdgeView>
    decreases ls.len(),
{
    if ls.len() == 0 {
        seq![]
    } else {
        let rest = spec_netstat_edges(ls.drop_last(), protocol);
        match spec_parse_netstat_line(ls.last(), protocol) {
            Some(e) => rest.push(e),
            None => rest,
        }
    }
}

/// Parses all lines of `netstat` output; lines that are not connections
/// (headers, wildcard entries) are skipped.
pub fn parse_netstat_output(output: &str, protocol: &str) -> (r: Vec<Edge>)
    ensures
        edge_views(r@) == spec_netstat_edges(lines(output@), protocol@),
{
    let text = chars_of(output);
    let ls = lines_exec(text.as_slice());
    let ghost lv = views(ls@);
    let mut r: Vec<Edge> = Vec::new();
    let mut i: usize = 0;
    while i < ls.len()
        invariant
            i <= ls@.len(),
            lv == views(ls@),
            lv == lines(output@),
            edge_views(r@) == spec_netstat_edges(lv.take(i as int), protocol@),
        decreases ls@.len() - i,
    {
        assert(lv.take(i + 1).drop_last() == lv.take(i as int));
        assert(lv.take(i + 1).last() == ls@[i as int]@);
        match parse_netstat_line_chars(ls[i].as_slice(), protocol) {
            Some(e) => {
                proof {
                    lemma_edge_views_push(r@, e);
                }
                r.push(e);
            },
            None => {},
        }
        i += 1;
    }
    assert(lv.take(ls@.len() as int) == lv);
    r
}

// ───────────────────────────── Linux /proc/net ─────────────────────────────

/// Eight lowercase hexadecimal digits of `v` (`{:08x}`).
pub open spec fn hex8(v: nat) -> Seq<char> {
    Seq::new(8, |k: int| hex_digit_char((v / pow16(7 - k)) % 16))
}

pub open spec fn pow16(k: int) -> nat
    decreases k,
{
    if k <= 0 {
        1
    } else {
        16 * pow16(k - 1)
    }
}

pub open spec fn hex_digit_char(d: nat) -> char {
    if d < 10 {
        (d + 0x30) as char
    } else {
        (d - 10 + 0x61) as char
    }
}

/// `u32::swap_bytes`.
pub open spec fn swap_bytes(v: nat) -> nat {
    (v % 256) * 0x1000000 + ((v / 256) % 256) * 0x10000 + ((v / 0x10000) % 256) * 0x100 + (v
        / 0x1000000) % 256
}

/// The dotted form of a little-endian IPv4 word.
pub open spec fn ipv4_le(raw: nat) -> Seq<char> {
    dec(raw % 256) + "."@ + dec((raw / 256) % 256) + "."@ + dec((raw / 0x10000) % 256) + "."@
        + dec((raw / 0x1000000) % 256)
}

/// An IPv6 address given as four little-endian 32-bit words in hex: the
/// words byte-swapped and written as eight groups of four lowercase hex
/// digits joined by `:`.
pub open spec fn ipv6_groups(h: Seq<char>) -> Seq<char> {
    h.subrange(0, 4) + ":"@ + h.subrange(4, 8) + ":"@ + h.subrange(8, 12) + ":"@ + h.subrange(
        12,
        16,
    ) + ":"@ + h.subrange(16, 20) + ":"@ + h.subrange(20, 24) + ":"@ + h.subrange(24, 28) + ":"@
        + h.subrange(28, 32)
}

pub open spec fn spec_ipv6_words(a: Seq<char>) -> Option<Seq<char>> {
    match (
        parse_bounded(a.subrange(0, 8), 16, 0xffff_ffff),
        parse_bounded(a.subrange(8, 16), 16, 0xffff_ffff),
        parse_bounded(a.subrange(16, 24), 16, 0xffff_ffff),
        parse_bounded(a.subrange(24, 32), 16, 0xffff_ffff),
    ) {
        (Some(w0), Some(w1), Some(w2), Some(w3)) => Some(
            ipv6_groups(
                hex8(swap_bytes(w0)) + hex8(swap_bytes(w1)) + hex8(swap_bytes(w2)) + hex8(
                    swap_bytes(w3),
                ),
            ),
        ),
        _ => None,
    }
}

/// A `/proc/net` address `ADDR:PORT` in hex: eight digits for IPv4 (a
/// little-endian word), thirty-two for IPv6 (four little-endian words).
pub open spec fn spec_parse_hex_addr(s: Seq<char>) -> Option<(Seq<char>, u16)> {
    match split_once(s, ':') {
        None => None,
        Some((a, p)) => match parse_bounded(p, 16, 0xffff) {
            None => None,
            Some(port) => if a.len() == 8 {
                match parse_bounded(a, 16, 0xffff_ffff) {
                    Some(raw) => Some((ipv4_le(raw), port as u16)),
                    None => None,
                }
            } else if a.len() == 32 {
                match spec_ipv6_words(a) {
                    Some(ip) => Some((ip, port as u16)),
                    None => None,
                }
            } else {
                None
            },
        },
    }
}

fn hex_digit_exec(d: u32) -> (c: char)
    requires
        d < 16,
    ensures
        c == hex_digit_char(d as nat),
{
    if d < 10 {
        char_from_digit(d)
    } else {
        match d {
            10 => 'a',
            11 => 'b',
            12 => 'c',
            13 => 'd',
            14 => 'e',
            _ => 'f',
        }
    }
}

pub proof fn lemma_pow16_pos(k: int)
    ensures
        pow16(k) >= 1,
    decreases k,
{
    if k > 0 {
        lemma_pow16_pos(k - 1);
    }
}

proof fn lemma_pow16_values()
    ensures
        pow16(0) == 1,
        pow16(1) == 16,
        pow16(2) == 256,
        pow16(3) == 4096,
        pow16(4) == 65536,
        pow16(5) == 1048576,
        pow16(6) == 16777216,
        pow16(7) == 268435456,
{
    reveal_with_fuel(pow16, 8);
}

fn push_hex8(out: &mut Vec<char>, v: u32)
    ensures
        final(out)@ == old(out)@ + hex8(v as nat),
{
    proof {
        lemma_pow16_values();
    }
    let mut k: u32 = 0;
    let mut div: u32 = 0x1000_0000;
    while k < 8
        invariant
            k <= 8,
            k < 8 ==> div as nat == pow16(7 - k),
            k < 8 ==> div > 0,
            out@ == old(out)@ + hex8(v as nat).take(k as int),
        decreases 8 - k,
    {
        let d = (v / div) % 16;
        out.push(hex_digit_exec(d));
        assert(hex8(v as nat).take(k + 1) == hex8(v as nat).take(k as int).push(
            hex_digit_char(((v / div) % 16) as nat),
        ));
        if k < 7 {
            assert(pow16(7 - k) == 16 * pow16(7 - k - 1));
            proof {
                lemma_pow16_pos(7 - k - 1);
            }
        }
        div = div / 16;
        k += 1;
    }
    assert(hex8(v as nat).take(8) == hex8(v as nat));
}

fn swap_bytes_exec(v: u32) -> (r: u32)
    ensures
        r as nat == swap_bytes(v as nat),
{
    (v % 256) * 0x1000000 + ((v / 256) % 256) * 0x10000 + ((v / 0x10000) % 256) * 0x100 + (v
        / 0x1000000) % 256
}

fn ipv4_le_exec(raw: u32) -> (r: String)
    ensures
        r@ == ipv4_le(raw as nat),
{
    let mut s = String::new();
    push_dec(&mut s, (raw % 256) as u64);
    s.push('.');
    push_dec(&mut s, ((raw / 256) % 256) as u64);
    s.push('.');
    push_dec(&mut s, ((raw / 0x10000) % 256) as u64);
    s.push('.');
    push_dec(&mut s, ((raw / 0x1000000) % 256) as u64);
    proof {
        reveal_strlit(".");
    }
    s
}

fn ipv6_words_exec(a: &[char]) -> (r: Option<String>)
    requires
        a@.len() == 32,
    ensures
        match r {
            Some(ip) => spec_ipv6_words(a@) == Some(ip@),
            None => spec_ipv6_words(a@) is None,
        },
{
    let mut hex: Vec<char> = Vec::new();
    let mut w: usize = 0;
    let ghost mut words: Seq<nat> = seq![];
    while w < 4
        invariant
            w <= 4,
            a@.len() == 32,
            words.len() == w,
            forall|j: int|
                0 <= j < w ==> parse_bounded(a@.subrange(8 * j, 8 * j + 8), 16, 0xffff_ffff)
                    == Some(#[trigger] words[j]),
            hex@ == (if w == 0 {
                seq![]
            } else if w == 1 {
                hex8(swap_bytes(words[0]))
            } else if w == 2 {
                hex8(swap_bytes(words[0])) + hex8(swap_bytes(words[1]))
            } else if w == 3 {
                hex8(swap_bytes(words[0])) + hex8(swap_bytes(words[1])) + hex8(swap_bytes(words[2]))
            } else {
                hex8(swap_bytes(words[0])) + hex8(swap_bytes(words[1])) + hex8(swap_bytes(words[2]))
                    + hex8(swap_bytes(words[3]))
            }),
        decreases 4 - w,
    {
        let chunk = slice_vec(a, 8 * w, 8 * w + 8);
        match parse_bounded_exec(chunk.as_slice(), 16, 0xffff_ffff) {
            Some(raw) => {
                push_hex8(&mut hex, swap_bytes_exec(raw as u32));
                proof {
                    words = words.push(raw as nat);
                }
            },
            None => {
                assert(spec_ipv6_words(a@) is None);
                return None;
            },
        }
        w += 1;
    }
    let mut out: Vec<char> = Vec::new();
    let mut g: usize = 0;
    while g < 8
        invariant
            g <= 8,
            hex@.len() == 32,
            out@ == (if g == 0 {
                seq![]
            } else {
                ipv6_prefix(hex@, g as int)
            }),
        decreases 8 - g,
    {
        proof {
            reveal_strlit(":");
        }
        if g > 0 {
            out.push(':');
        }
        let mut k: usize = 4 * g;
        while k < 4 * g + 4
            invariant
                g < 8,
                hex@.len() == 32,
                4 * g <= k <= 4 * g + 4,
                out@ == (if g == 0 {
                    seq![]
                } else {
                    ipv6_prefix(hex@, g as int) + ":"@
                }) + hex@.subrange(4 * g, k as int),
            decreases 4 * g + 4 - k,
        {
            out.push(hex[k]);
            k += 1;
            proof {
                reveal_strlit(":");
            }
            assert(hex@.subrange(4 * g, k as int) == hex@.subrange(4 * g, k - 1).push(
                hex@[k - 1],
            ));
        }
        proof {
            reveal_strlit(":");
            if g > 0 {
                assert(ipv6_prefix(hex@, g + 1) == ipv6_prefix(hex@, g as int) + ":"@
                    + hex@.subrange(4 * g, 4 * g + 4));
            } else {
                assert(ipv6_prefix(hex@, 1) == hex@.subrange(0, 4));
            }
        }
        g += 1;
    }
    proof {
        lemma_ipv6_prefix_full(hex@);
    }
    Some(string_of(out.as_slice()))
}

/// The first `g` groups of four hex digits joined by `:`.
pub open spec fn ipv6_prefix(h: Seq<char>, g: int) -> Seq<char>
    decreases g,
{
    if g <= 1 {
        h.subrange(0, 4)
    } else {
        ipv6_prefix(h, g - 1) + ":"@ + h.subrange(4 * (g - 1), 4 * g)
    }
}

proof fn lemma_ipv6_prefix_full(h: Seq<char>)
    requires
        h.len() == 32,
    ensures
        ipv6_prefix(h, 8) == ipv6_groups(h),
{
    reveal_with_fuel(ipv6_prefix, 8);
}

fn parse_hex_addr_chars(s: &[char]) -> (r: Option<(String, u16)>)
    ensures
        addr_port_view(r) == spec_parse_hex_addr(s@),
{
    let (a, p) = match split_once_exec(s, ':') {
        Some(v) => v,
        None => {
            return None;
        },
    };
    let port = match parse_bounded_exec(p.as_slice(), 16, 0xffff) {
        Some(v) => v as u16,
        None => {
            return None;
        },
    };
    if a.len() == 8 {
        match parse_bounded_exec(a.as_slice(), 16, 0xffff_ffff) {
            Some(raw) => Some((ipv4_le_exec(raw as u32), port)),
            None => None,
        }
    } else if a.len() == 32 {
        match ipv6_words_exec(a.as_slice()) {
            Some(ip) => Some((ip, port)),
            None => None,
        }
    } else {
        None
    }
}

/// Parses a hex `ADDR:PORT` of `/proc/net/tcp` (`0101A8C0:0050` is
/// `192.168.1.1`, port 80).
pub fn parse_hex_addr(s: &str) -> (r: Option<(String, u16)>)
    ensures
        addr_port_view(r) == spec_parse_hex_addr(s@),
{
    let v = chars_of(s);
    parse_hex_addr_chars(v.as_slice())
}

/// The name of a TCP state code (after upper-casing).
pub open spec fn tcp_state_name(h: Seq<char>) -> Seq<char> {
    if h == "01"@ {
        "ESTABLISHED"@
    } else if h == "02"@ {
        "SYN_SENT"@
    } else if h == "03"@ {
        "SYN_RECV"@
    } else if h == "04"@ {
        "FIN_WAIT1"@
    } else if h == "05"@ {
        "FIN_WAIT2"@
    } else if h == "06"@ {
        "TIME_WAIT"@
    } else if h == "07"@ {
        "CLOSE"@
    } else if h == "08"@ {
        "CLOSE_WAIT"@
    } else if h == "09"@ {
        "LAST_ACK"@
    } else if h == "0A"@ {
        "LISTEN"@
    } else if h == "0B"@ {
        "CLOSING"@
    } else {
        "UNKNOWN"@
    }
}

pub open spec fn spec_decode_tcp_state(hex: Seq<char>) -> Seq<char> {
    tcp_state_name(spec_to_uppercase(hex))
}

fn decode_tcp_state_chars(hex: &[char]) -> (r: String)
    ensures
        r@ == spec_decode_tcp_state(hex@),
{
    let u = uppercase_chars(hex);
    let h = string_of(u.as_slice());
    let h = h.as_str();
    if str_eq(h, "01") {
        "ESTABLISHED".to_string()
    } else if str_eq(h, "02") {
        "SYN_SENT".to_string()
    } else if str_eq(h, "03") {
        "SYN_RECV".to_string()
    } else if str_eq(h, "04") {
        "FIN_WAIT1".to_string()
    } else if str_eq(h, "05") {
        "FIN_WAIT2".to_string()
    } else if str_eq(h, "06") {
        "TIME_WAIT".to_string()
    } else if str_eq(h, "07") {
        "CLOSE".to_string()
    } else if str_eq(h, "08") {
        "CLOSE_WAIT".to_string()
    } else if str_eq(h, "09") {
        "LAST_ACK".to_string()
    } else if str_eq(h, "0A") {
        "LISTEN".to_string()
    } else if str_eq(h, "0B") {
        "CLOSING".to_string()
    } else {
        "UNKNOWN".to_string()
    }
}

/// The name of a `/proc/net/tcp` state code (`01` is `ESTABLISHED`, `0A`
/// is `LISTEN`, unknown codes are `UNKNOWN`).
pub fn decode_tcp_state(hex: &str) -> (r: String)
    ensures
        r@ == spec_decode_tcp_state(hex@),
{
    let v = chars_of(hex);
    decode_tcp_state_chars(v.as_slice())
}

/// One data line of a `/proc/net` table, if it has at least four columns
/// whose local and remote addresses parse: the connection from the local
/// address to the remote one.
pub open spec fn spec_proc_net_line(line: Seq<char>, protocol: Seq<char>) -> Option<EdgeView> {
    let cols = ws_tokens(line);
    if cols.len() < 4 {
        None
    } else {
        match (spec_parse_hex_addr(cols[1]), spec_parse_hex_addr(cols[2])) {
            (Some((local, local_port)), Some((remote, remote_port))) => Some(
                EdgeView {
                    src: local,
                    dst: remote,
                    protocol,
                    src_port: local_port,
                    dst_port: remote_port,
                    state: Some(spec_decode_tcp_state(cols[3])),
                    count: 1,
                },
            ),
            _ => None,
        }
    }
}

pub open spec fn spec_proc_net_edges(ls: Seq<Seq<char>>, protocol: Seq<char>) -> Seq<EdgeView>
    decreases ls.len(),
{
    if ls.len() == 0 {
        seq![]
    } else {
        let rest = spec_proc_net_edges(ls.drop_last(), protocol);
        match spec_proc_net_line(ls.last(), protocol) {
            Some(e) => rest.push(e),
            None => rest,
        }
    }
}

/// All lines after the header line.
pub open spec fn skip_header(ls: Seq<Seq<char>>) -> Seq<Seq<char>> {
    if ls.len() == 0 {
        ls
    } else {
        ls.drop_first()
    }
}

fn proc_net_line(line: &[char], protocol: &str) -> (r: Option<Edge>)
    ensures
        opt_edge_view(r) == spec_proc_net_line(line@, protocol@),
{
    let cols = split_whitespace_exec(line);
    if cols.len() < 4 {
        return None;
    }
    let ghost cv = views(cols@);
    assert(cv[1] == cols@[1]@ && cv[2] == cols@[2]@ && cv[3] == cols@[3]@);
    let (src, src_port) = match parse_hex_addr_chars(cols[1].as_slice()) {
        Some(v) => v,
        None => {
            return None;
        },
    };
    let (dst, dst_port) = match parse_hex_addr_chars(cols[2].as_slice()) {
        Some(v) => v,
        None => {
            return None;
        },
    };
    let state = decode_tcp_state_chars(cols[3].as_slice());
    Some(
        Edge {
            src,
            dst,
            protocol: protocol.to_string(),
            src_port,
            dst_port,
            state: Some(state),
            count: 1,
        },
    )
}

/// Parses a `/proc/net/tcp`-style table; the first line is the header and
/// lines that do not parse are skipped.
#[verifier::spinoff_prover]
#[verifier::rlimit(40)]
pub fn parse_proc_net(content: &str, protocol: &str) -> (r: Vec<Edge>)
    ensures
        edge_views(r@) == spec_proc_net_edges(skip_header(lines(content@)), protocol@),
{
    let text = chars_of(content);
    let ls = lines_exec(text.as_slice());
    let ghost all = views(ls@);
    let mut r: Vec<Edge> = Vec::new();
    if ls.len() == 0 {
        assert(skip_header(all).len() == 0);
        return r;
    }
    let ghost lv = all.drop_first();
    let mut i: usize = 1;
    while i < ls.len()
        invariant
            1 <= i <= ls@.len(),
            all == views(ls@),
            lv == all.drop_first(),
            edge_views(r@) == spec_proc_net_edges(lv.take(i - 1), protocol@),
        decreases ls@.len() - i,
    {
        assert(lv.take(i as int).drop_last() =~= lv.take(i - 1));
        assert(lv.take(i as int).last() == all[i as int]);
        assert(all[i as int] == ls@[i as int]@);
        match proc_net_line(ls[i].as_slice(), protocol) {
            Some(e) => {
                proof {
                    lemma_edge_views_push(r@, e);
                }
                r.push(e);
            },
            None => {},
        }
        i += 1;
    }
    assert(lv.take(lv.len() as int) =~= lv);
    assert(skip_header(all) == lv);
    r
}

// ───────────────────────────── snapshots ───────────────────────────────────

/// The edges that pass the filters, in order.
pub open spec fn spec_filter_edges(es: Seq<EdgeView>, local_only: bool, exclude_loopback: bool) -> Seq<
    EdgeView,
>
    decreases es.len(),
{
    if es.len() == 0 {
        seq![]
    } else {
        let rest = spec_filter_edges(es.drop_last(), local_only, exclude_loopback);
        if spec_should_include(es.last(), local_only, exclude_loopback) {
            rest.push(es.last())
        } else {
            rest
        }
    }
}

/// Keeps the edges that pass the filters and appends them to `out`.
pub fn append_included(
    out: &mut Vec<Edge>,
    edges: Vec<Edge>,
    local_only: bool,
    exclude_loopback: bool,
)
    ensures
        edge_views(final(out)@) == edge_views(old(out)@) + spec_filter_edges(
            edge_views(edges@),
            local_only,
            exclude_loopback,
        ),
{
    let ghost ev = edge_views(edges@);
    let ghost start = edge_views(out@);
    for e in it: edges
        invariant
            ev.len() == it.seq().len(),
            forall|k: int| 0 <= k < ev.len() ==> ev[k] == (#[trigger] it.seq()[k])@,
            edge_views(out@) == start + spec_filter_edges(
                ev.take(it.index() as int),
                local_only,
                exclude_loopback,
            ),
    {
        let ghost i = it.index();
        assert(ev.take(i + 1).drop_last() == ev.take(i as int));
        assert(ev.take(i + 1).last() == ev[i as int]);
        if should_include(&e, local_only, exclude_loopback) {
            proof {
                lemma_edge_views_push(out@, e);
            }
            out.push(e);
        }
    }
    assert(ev.take(ev.len() as int) == ev);
}

/// The computing part of a macOS snapshot: the TCP then the UDP `netstat`
/// output parsed and filtered.
pub fn connections_from_netstat(
    tcp_output: &str,
    udp_output: &str,
    local_only: bool,
    exclude_loopback: bool,
) -> (r: Vec<Edge>)
    ensures
        edge_views(r@) == spec_filter_edges(
            spec_netstat_edges(lines(tcp_output@), "TCP"@),
            local_only,
            exclude_loopback,
        ) + spec_filter_edges(
            spec_netstat_edges(lines(udp_output@), "UDP"@),
            local_only,
            exclude_loopback,
        ),
{
    let mut r: Vec<Edge> = Vec::new();
    append_included(&mut r, parse_netstat_output(tcp_output, "TCP"), local_only, exclude_loopback);
    append_included(&mut r, parse_netstat_output(udp_output, "UDP"), local_only, exclude_loopback);
    r
}

/// The filtered edges of a sequence of `/proc/net` tables, each given with
/// its protocol, in order.
#[verifier::opaque]
pub open spec fn spec_proc_net_tables(
    tables: Seq<(Seq<char>, Seq<char>)>,
    local_only: bool,
    exclude_loopback: bool,
) -> Seq<EdgeView>
    decreases tables.len(),
{
    if tables.len() == 0 {
        seq![]
    } else {
        spec_proc_net_tables(tables.drop_last(), local_only, exclude_loopback) + spec_filter_edges(
            spec_proc_net_edges(skip_header(lines(tables.last().0)), tables.last().1),
            local_only,
            exclude_loopback,
        )
    }
}

proof fn lemma_tables_step(
    tv: Seq<(Seq<char>, Seq<char>)>,
    i: int,
    local_only: bool,
    exclude_loopback: bool,
)
    requires
        0 <= i < tv.len(),
    ensures
        spec_proc_net_tables(tv.take(i + 1), local_only, exclude_loopback) == spec_proc_net_tables(
            tv.take(i),
            local_only,
            exclude_loopback,
        ) + spec_filter_edges(
            spec_proc_net_edges(skip_header(lines(tv[i].0)), tv[i].1),
            local_only,
            exclude_loopback,
        ),
{
    reveal(spec_proc_net_tables);
    assert(tv.take(i + 1).drop_last() =~= tv.take(i));
    assert(tv.take(i + 1).last() == tv[i]);
}

pub open spec fn table_views(t: Seq<(String, String)>) -> Seq<(Seq<char>, Seq<char>)> {
    Seq::new(t.len(), |i: int| (t[i].0@, t[i].1@))
}

/// The computing part of a Linux snapshot: each table that could be read,
/// with its protocol, parsed and filtered.
#[verifier::spinoff_prover]
#[verifier::rlimit(80)]
pub fn connections_from_proc_net(
    tables: &Vec<(String, String)>,
    local_only: bool,
    exclude_loopback: bool,
) -> (r: Vec<Edge>)
    ensures
        edge_views(r@) == spec_proc_net_tables(table_views(tables@), local_only, exclude_loopback),
{
    let ghost tv = table_views(tables@);
    let mut r: Vec<Edge> = Vec::new();
    let mut i: usize = 0;
    assert(tv.take(0) =~= Seq::<(Seq<char>, Seq<char>)>::empty());
    assert(edge_views(r@) =~= Seq::<EdgeView>::empty());
    proof {
        reveal(spec_proc_net_tables);
    }
    while i < tables.len()
        invariant
            i <= tables@.len(),
            tv == table_views(tables@),
            edge_views(r@) == spec_proc_net_tables(tv.take(i as int), local_only, exclude_loopback),
        decreases tables@.len() - i,
    {
        let content = &tables[i].0;
        let proto = &tables[i].1;
        assert(tv[i as int] == (content@, proto@));
        proof {
            lemma_tables_step(tv, i as int, local_only, exclude_loopback);
        }
        let parsed = parse_proc_net(content.as_str(), proto.as_str());
        append_included(&mut r, parsed, local_only, exclude_loopback);
        i += 1;
    }
    assert(tv.take(tables@.len() as int) =~= tv);
    r
}

// ───────────────────────────── the IPv4-only table reading ─────────────────

/// An IPv4 `/proc/net` address `ADDR:PORT` in hex (eight address digits);
/// other lengths give nothing.
pub open spec fn spec_hex_addr_ipv4(s: Seq<char>) -> Option<(Seq<char>, u16)> {
    match split_once(s, ':') {
        None => None,
        Some((a, p)) => if a.len() == 8 {
            spec_parse_hex_addr(s)
        } else {
            None
        },
    }
}

/// Parses an IPv4 hex `ADDR:PORT` (`0101A8C0:01BB` is `192.168.1.1`, 443).
pub fn test_parse_hex_addr_ipv4(s: &str) -> (r: Option<(String, u16)>)
    ensures
        addr_port_view(r) == spec_hex_addr_ipv4(s@),
{
    let v = chars_of(s);
    match split_once_exec(v.as_slice(), ':') {
        None => None,
        Some((a, _)) => if a.len() == 8 {
            parse_hex_addr_chars(v.as_slice())
        } else {
            None
        },
    }
}

/// The name of a TCP state code as written (`0A`, not `0a`, is `LISTEN`).
pub fn test_tcp_state_from_hex(hex: &str) -> (r: &'static str)
    ensures
        r@ == tcp_state_name(hex@),
{
    if str_eq(hex, "01") {
        "ESTABLISHED"
    } else if str_eq(hex, "02") {
        "SYN_SENT"
    } else if str_eq(hex, "03") {
        "SYN_RECV"
    } else if str_eq(hex, "04") {
        "FIN_WAIT1"
    } else if str_eq(hex, "05") {
        "FIN_WAIT2"
    } else if str_eq(hex, "06") {
        "TIME_WAIT"
    } else if str_eq(hex, "07") {
        "CLOSE"
    } else if str_eq(hex, "08") {
        "CLOSE_WAIT"
    } else if str_eq(hex, "09") {
        "LAST_ACK"
    } else if str_eq(hex, "0A") {
        "LISTEN"
    } else if str_eq(hex, "0B") {
        "CLOSING"
    } else {
        "UNKNOWN"
    }
}

/// One data line of a TCP table read as IPv4 only: the connection from the
/// local address to the remote one.
pub open spec fn spec_tcp_line_ipv4(line: Seq<char>) -> Option<EdgeView> {
    let cols = ws_tokens(line);
    if cols.len() < 4 {
        None
    } else {
        match (spec_hex_addr_ipv4(cols[1]), spec_hex_addr_ipv4(cols[2])) {
            (Some((src, src_port)), Some((dst, dst_port))) => Some(
                EdgeView {
                    src,
                    dst,
                    protocol: "TCP"@,
                    src_port,
                    dst_port,
                    state: Some(tcp_state_name(cols[3])),
                    count: 1,
                },
            ),
            _ => None,
        }
    }
}

pub open spec fn spec_tcp_edges_ipv4(ls: Seq<Seq<char>>) -> Seq<EdgeView>
    decreases ls.len(),
{
    if ls.len() == 0 {
        seq![]
    } else {
        let rest = spec_tcp_edges_ipv4(ls.drop_last());
        match spec_tcp_line_ipv4(ls.last()) {
            Some(e) => rest.push(e),
            None => rest,
        }
    }
}

fn tcp_line_ipv4(line: &[char]) -> (r: Option<Edge>)
    ensures
        opt_edge_view(r) == spec_tcp_line_ipv4(line@),
{
    let cols = split_whitespace_exec(line);
    if cols.len() < 4 {
        return None;
    }
    let ghost cv = views(cols@);
    assert(cv[1] == cols@[1]@ && cv[2] == cols@[2]@ && cv[3] == cols@[3]@);
    let a = string_of(cols[1].as_slice());
    let b = string_of(cols[2].as_slice());
    let c = string_of(cols[3].as_slice());
    let (src, src_port) = match test_parse_hex_addr_ipv4(a.as_str()) {
        Some(v) => v,
        None => {
            return None;
        },
    };
    let (dst, dst_port) = match test_parse_hex_addr_ipv4(b.as_str()) {
        Some(v) => v,
        None => {
            return None;
        },
    };
    let state = test_tcp_state_from_hex(c.as_str()).to_owned();
    Some(Edge { src, dst, protocol: "TCP".to_owned(), src_port, dst_port, state: Some(state), count: 1 })
}

/// Reads a `/proc/net/tcp` table as IPv4 only; the first line is the header
/// and lines that do not parse are skipped.
#[verifier::spinoff_prover]
#[verifier::rlimit(40)]
pub fn test_parse_proc_net_tcp(content: &str) -> (r: Vec<Edge>)
    ensures
        edge_views(r@) == spec_tcp_edges_ipv4(skip_header(lines(content@))),
{
    let text = chars_of(content);
    let ls = lines_exec(text.as_slice());
    let ghost all = views(ls@);
    let mut r: Vec<Edge> = Vec::new();
    if ls.len() == 0 {
        assert(skip_header(all).len() == 0);
        return r;
    }
    let ghost lv = all.drop_first();
    let mut i: usize = 1;
    assert(lv.take(0) =~= Seq::<Seq<char>>::empty());
    assert(edge_views(r@) =~= Seq::<EdgeView>::empty());
    while i < ls.len()
        invariant
            1 <= i <= ls@.len(),
            all == views(ls@),
            lv == all.drop_first(),
            edge_views(r@) == spec_tcp_edges_ipv4(lv.take(i - 1)),
        decreases ls@.len() - i,
    {
        assert(lv.take(i as int).drop_last() =~= lv.take(i - 1));
        assert(lv.take(i as int).last() == all[i as int]);
        assert(all[i as int] == ls@[i as int]@);
        match tcp_line_ipv4(ls[i].as_slice()) {
            Some(e) => {
                proof {
                    lemma_edge_views_push(r@, e);
                }
                r.push(e);
            },
            None => {},
        }
        i += 1;
    }
    assert(lv.take(lv.len() as int) =~= lv);
    assert(skip_header(all) == lv);
    r
}


// ───────────────────────────── hex round trip ──────────────────────────────

/// A hex digit, upper or lower case.
pub open spec fn hex_char(d: nat, upper: bool) -> char {
    if d < 10 {
        (d + 0x30) as char
    } else if upper {
        (d - 10 + 0x41) as char
    } else {
        (d - 10 + 0x61) as char
    }
}

/// The last `n` hex digits of `v`, most significant first.
pub open spec fn hex_digits(v: nat, n: nat, upper: bool) -> Seq<char>
    decreases n,
{
    if n == 0 {
        Seq::empty()
    } else {
        hex_digits(v / 16, (n - 1) as nat, upper).push(hex_char(v % 16, upper))
    }
}

pub proof fn lemma_hex_digits(v: nat, n: nat, upper: bool)
    ensures
        hex_digits(v, n, upper).len() == n,
        all_digits(hex_digits(v, n, upper), 16),
        digits_value(hex_digits(v, n, upper), 16) == v % pow16(n as int),
        forall|i: int|
            0 <= i < n ==> (#[trigger] hex_digits(v, n, upper)[i]) != ':' && hex_digits(v, n, upper)[i]
                != '+',
    decreases n,
{
    if n == 0 {
        assert(v % 1 == 0);
    } else {
        let h = hex_digits(v, n, upper);
        let p = hex_digits(v / 16, (n - 1) as nat, upper);
        lemma_hex_digits(v / 16, (n - 1) as nat, upper);
        lemma_pow16_pos(n - 1);
        let d = v % 16;
        let ch = hex_char(d, upper);
        if d < 10 {
            assert((ch as u32) == d + 0x30);
        } else if upper {
            assert((ch as u32) == d - 10 + 0x41);
        } else {
            assert((ch as u32) == d - 10 + 0x61);
        }
        assert(digit_value(ch, 16) == Some(d));
        assert(h.drop_last() =~= p);
        assert(h.last() == ch);
        assert forall|i: int| 0 <= i < h.len() implies (#[trigger] digit_value(h[i], 16)) is Some by {
            if i < p.len() {
                assert(h[i] == p[i]);
            }
        }
        assert forall|i: int| 0 <= i < n implies (#[trigger] h[i]) != ':' && h[i] != '+' by {
            if i < p.len() {
                assert(h[i] == p[i]);
            }
        }
        vstd::arithmetic::div_mod::lemma_mod_breakdown(v as int, 16, pow16(n - 1) as int);
        assert(pow16(n as int) == 16 * pow16(n - 1));
    }
}

/// Four address bytes and a port written as `/proc/net` writes an IPv4
/// socket (the address word little-endian in eight hex digits, a colon, the
/// port in four), in upper or lower case, parse back to the dotted address
/// and the port.
pub proof fn law_hex_addr_round_trip(a: u8, b: u8, c: u8, d: u8, p: u16, upper: bool)
    ensures
        ({
            let raw = a as nat + 256 * (b as nat) + 65536 * (c as nat) + 16777216 * (d as nat);
            spec_parse_hex_addr(hex_digits(raw, 8, upper) + ":"@ + hex_digits(p as nat, 4, upper))
                == Some((dec(a as nat) + "."@ + dec(b as nat) + "."@ + dec(c as nat) + "."@ + dec(d as nat), p))
        }),
{
    let raw = a as nat + 256 * (b as nat) + 65536 * (c as nat) + 16777216 * (d as nat);
    let h8 = hex_digits(raw, 8, upper);
    let h4 = hex_digits(p as nat, 4, upper);
    reveal_strlit(":");
    let s = h8 + ":"@ + h4;
    lemma_hex_digits(raw, 8, upper);
    lemma_hex_digits(p as nat, 4, upper);
    reveal_with_fuel(pow16, 9);
    assert(pow16(4) == 65536);
    assert(pow16(8) == 4294967296);
    assert(raw < 4294967296);
    assert(raw % 4294967296 == raw);
    assert((p as nat) % 65536 == p as nat);
    lemma_find_char(s, 0, ':');
    let e = find_char(s, 0, ':');
    assert(s[8] == ':');
    assert forall|k: int| 0 <= k < 8 implies s[k] != ':' by {
        assert(s[k] == h8[k]);
    }
    assert(e == 8);
    assert(s.subrange(0, 8) =~= h8);
    assert(s.subrange(9, s.len() as int) =~= h4);
    assert(h4[0] != '+');
    assert(h8[0] != '+');
    assert(raw % 256 == a as nat && (raw / 256) % 256 == b as nat && (raw / 65536) % 256 == c as nat && (raw
        / 16777216) % 256 == d as nat) by (nonlinear_arith)
        requires
            raw == a as nat + 256 * (b as nat) + 65536 * (c as nat) + 16777216 * (d as nat),
            a < 256,
            b < 256,
            c < 256,
            d < 256,
    ;
}


} // verus!
