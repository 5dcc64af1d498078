//! The `/proc/net` address form of IPv6 sockets read back: hex digits,
//! little-endian words and the eight groups of the address.
use vstd::prelude::*;
use vstd::arithmetic::div_mod::{lemma_div_denominator, lemma_fundamental_div_mod_converse};
use crate::connection_tracker::{
    hex8, hex_char, hex_digits, ipv6_groups, lemma_hex_digits, lemma_pow16_pos, pow16,
    spec_ipv6_words, spec_parse_hex_addr, swap_bytes,
};
use crate::text::{find_char, lemma_find_char, parse_bounded, split_once};

verus! {

/// The bytes of a little-endian word, and the word with them swapped.
proof fn lemma_le_bytes(b0: nat, b1: nat, b2: nat, b3: nat)
    requires
        b0 < 256,
        b1 < 256,
        b2 < 256,
        b3 < 256,
    ensures
        swap_bytes(b0 + 256 * b1 + 65536 * b2 + 16777216 * b3) == (256 * b0 + b1) * 65536 + (256 * b2
            + b3),
{
    let w = b0 + 256 * b1 + 65536 * b2 + 16777216 * b3;
    let q1 = b1 + 256 * b2 + 65536 * b3;
    let q2 = b2 + 256 * b3;
    lemma_fundamental_div_mod_converse(w as int, 256, q1 as int, b0 as int);
    lemma_fundamental_div_mod_converse(q1 as int, 256, q2 as int, b1 as int);
    lemma_fundamental_div_mod_converse(q2 as int, 256, b3 as int, b2 as int);
    lemma_fundamental_div_mod_converse(b3 as int, 256, 0, b3 as int);
    lemma_div_denominator(w as int, 256, 256);
    lemma_div_denominator(w as int, 65536, 256);
    assert(w / 65536 == q2);
    assert(w / 16777216 == b3);
}

/// Writing `x` then `y` in hex, `y` in `n` digits, is writing `x·16^n + y`.
proof fn lemma_hex_digits_split(x: nat, y: nat, m: nat, n: nat, upper: bool)
    requires
        y < pow16(n as int),
    ensures
        hex_digits(x * pow16(n as int) + y, m + n, upper) == hex_digits(x, m, upper) + hex_digits(y, n, upper),
    decreases n,
{
    if n == 0 {
        assert(pow16(0) == 1);
        assert(y == 0);
        assert(x * 1 + 0 == x);
        assert(hex_digits(x, m, upper) + Seq::<char>::empty() =~= hex_digits(x, m, upper));
    } else {
        let pp = pow16(n - 1);
        lemma_pow16_pos(n - 1);
        assert(pow16(n as int) == 16 * pp);
        let v = x * pow16(n as int) + y;
        let q = x * pp + y / 16;
        assert(y == 16 * (y / 16) + y % 16 && 0 <= y % 16 < 16) by (nonlinear_arith);
        assert(v == q * 16 + y % 16) by (nonlinear_arith)
            requires
                v == x * pow16(n as int) + y,
                pow16(n as int) == 16 * pp,
                q == x * pp + y / 16,
                y == 16 * (y / 16) + y % 16,
        ;
        lemma_fundamental_div_mod_converse(v as int, 16, q as int, (y % 16) as int);
        assert(y / 16 < pp) by (nonlinear_arith)
            requires
                y < 16 * pp,
        ;
        lemma_hex_digits_split(x, y / 16, m, (n - 1) as nat, upper);
        assert((m + n - 1) as nat == m + (n - 1) as nat);
        assert(hex_digits(v, m + n, upper) == hex_digits(v / 16, (m + n - 1) as nat, upper).push(
            hex_char(v % 16, upper),
        ));
        assert(hex_digits(y, n, upper) == hex_digits(y / 16, (n - 1) as nat, upper).push(
            hex_char(y % 16, upper),
        ));
        assert(hex_digits(v, m + n, upper) =~= hex_digits(x, m, upper) + hex_digits(y, n, upper));
    }
}

/// The `k`-th of the `n` hex digits of `v`.
proof fn lemma_hex_digits_at(v: nat, n: nat, upper: bool, k: int)
    requires
        0 <= k < n,
    ensures
        hex_digits(v, n, upper)[k] == hex_char((v / pow16(n - 1 - k)) % 16, upper),
    decreases n,
{
    lemma_hex_digits(v, n, upper);
    lemma_hex_digits(v / 16, (n - 1) as nat, upper);
    if k == n - 1 {
        assert(pow16(0) == 1);
        assert(v / 1 == v);
    } else {
        lemma_hex_digits_at(v / 16, (n - 1) as nat, upper, k);
        lemma_pow16_pos(n - 2 - k);
        lemma_div_denominator(v as int, 16, pow16(n - 2 - k) as int);
        assert(pow16(n - 1 - k) == 16 * pow16(n - 2 - k));
    }
}

/// The `{:08x}` form is eight lowercase hex digits.
proof fn lemma_hex8(v: nat)
    ensures
        hex8(v) == hex_digits(v, 8, false),
{
    lemma_hex_digits(v, 8, false);
    assert forall|k: int| 0 <= k < 8 implies hex8(v)[k] == hex_digits(v, 8, false)[k] by {
        lemma_hex_digits_at(v, 8, false, k);
    }
    assert(hex8(v) =~= hex_digits(v, 8, false));
}

/// The little-endian 32-bit word of address bytes `4i` to `4i + 3`.
pub open spec fn le_word(b: Seq<u8>, i: int) -> nat {
    b[4 * i] as nat + 256 * (b[4 * i + 1] as nat) + 65536 * (b[4 * i + 2] as nat) + 16777216 * (b[4
        * i + 3] as nat)
}

/// The `/proc/net` form of an IPv6 address: its four words little-endian in
/// eight hex digits each.
pub open spec fn proc_ipv6_hex(b: Seq<u8>, upper: bool) -> Seq<char> {
    hex_digits(le_word(b, 0), 8, upper) + hex_digits(le_word(b, 1), 8, upper) + hex_digits(
        le_word(b, 2),
        8,
        upper,
    ) + hex_digits(le_word(b, 3), 8, upper)
}

/// Group `k` of an IPv6 address: bytes `2k` and `2k + 1` in four lowercase
/// hex digits.
pub open spec fn ipv6_group(b: Seq<u8>, k: int) -> Seq<char> {
    hex_digits(256 * (b[2 * k] as nat) + b[2 * k + 1] as nat, 4, false)
}

proof fn lemma_proc_word(b: Seq<u8>, i: int, upper: bool)
    requires
        b.len() == 16,
        0 <= i < 4,
    ensures
        parse_bounded(hex_digits(le_word(b, i), 8, upper), 16, 0xffff_ffff) == Some(le_word(b, i)),
        hex8(swap_bytes(le_word(b, i))) == ipv6_group(b, 2 * i) + ipv6_group(b, 2 * i + 1),
        hex_digits(le_word(b, i), 8, upper).len() == 8,
        forall|k: int|
            0 <= k < 8 ==> (#[trigger] hex_digits(le_word(b, i), 8, upper)[k]) != ':',
{
    let w = le_word(b, i);
    let b0 = b[4 * i] as nat;
    let b1 = b[4 * i + 1] as nat;
    let b2 = b[4 * i + 2] as nat;
    let b3 = b[4 * i + 3] as nat;
    lemma_hex_digits(w, 8, upper);
    reveal_with_fuel(pow16, 9);
    assert(pow16(8) == 4294967296);
    assert(pow16(4) == 65536);
    assert(w < 4294967296);
    assert(w % 4294967296 == w);
    assert(hex_digits(w, 8, upper)[0] != '+');
    lemma_le_bytes(b0, b1, b2, b3);
    assert(256 * b2 + b3 < 65536);
    lemma_hex_digits_split(256 * b0 + b1, 256 * b2 + b3, 4, 4, false);
    lemma_hex8(swap_bytes(w));
    assert(2 * (2 * i) == 4 * i && 2 * (2 * i) + 1 == 4 * i + 1);
    assert(2 * (2 * i + 1) == 4 * i + 2 && 2 * (2 * i + 1) + 1 == 4 * i + 3);
}

proof fn lemma_split_colon(a: Seq<char>, t: Seq<char>)
    requires
        forall|k: int| 0 <= k < a.len() ==> a[k] != ':',
    ensures
        split_once(a + ":"@ + t, ':') == Some((a, t)),
{
    reveal_strlit(":");
    let s = a + ":"@ + t;
    lemma_find_char(s, 0, ':');
    assert(s[a.len() as int] == ':');
    assert forall|k: int| 0 <= k < a.len() implies s[k] != ':' by {
        assert(s[k] == a[k]);
    }
    assert(find_char(s, 0, ':') == a.len());
    assert(s.subrange(0, a.len() as int) =~= a);
    assert(s.subrange(a.len() as int + 1, s.len() as int) =~= t);
}

proof fn lemma_port(p: u16, upper: bool)
    ensures
        parse_bounded(hex_digits(p as nat, 4, upper), 16, 0xffff) == Some(p as nat),
{
    lemma_hex_digits(p as nat, 4, upper);
    reveal_with_fuel(pow16, 5);
    assert(pow16(4) == 65536);
    assert((p as nat) % 65536 == p as nat);
    assert(hex_digits(p as nat, 4, upper)[0] != '+');
}

proof fn lemma_no_colon(b: Seq<u8>, upper: bool)
    requires
        b.len() == 16,
    ensures
        proc_ipv6_hex(b, upper).len() == 32,
        forall|k: int| 0 <= k < 32 ==> proc_ipv6_hex(b, upper)[k] != ':',
        proc_ipv6_hex(b, upper).subrange(0, 8) == hex_digits(le_word(b, 0), 8, upper),
        proc_ipv6_hex(b, upper).subrange(8, 16) == hex_digits(le_word(b, 1), 8, upper),
        proc_ipv6_hex(b, upper).subrange(16, 24) == hex_digits(le_word(b, 2), 8, upper),
        proc_ipv6_hex(b, upper).subrange(24, 32) == hex_digits(le_word(b, 3), 8, upper),
{
    let h0 = hex_digits(le_word(b, 0), 8, upper);
    let h1 = hex_digits(le_word(b, 1), 8, upper);
    let h2 = hex_digits(le_word(b, 2), 8, upper);
    let h3 = hex_digits(le_word(b, 3), 8, upper);
    lemma_proc_word(b, 0, upper);
    lemma_proc_word(b, 1, upper);
    lemma_proc_word(b, 2, upper);
    lemma_proc_word(b, 3, upper);
    let a = proc_ipv6_hex(b, upper);
    assert forall|k: int| 0 <= k < 32 implies a[k] != ':' by {
        if k < 8 {
            assert(a[k] == h0[k]);
        } else if k < 16 {
            assert(a[k] == h1[k - 8]);
        } else if k < 24 {
            assert(a[k] == h2[k - 16]);
        } else {
            assert(a[k] == h3[k - 24]);
        }
    }
    assert(a.subrange(0, 8) =~= h0);
    assert(a.subrange(8, 16) =~= h1);
    assert(a.subrange(16, 24) =~= h2);
    assert(a.subrange(24, 32) =~= h3);
}

/// The eight groups of the address, joined by colons.
pub open spec fn ipv6_text(b: Seq<u8>) -> Seq<char> {
    ipv6_group(b, 0) + ":"@ + ipv6_group(b, 1) + ":"@ + ipv6_group(b, 2) + ":"@ + ipv6_group(b, 3) + ":"@
        + ipv6_group(b, 4) + ":"@ + ipv6_group(b, 5) + ":"@ + ipv6_group(b, 6) + ":"@ + ipv6_group(b, 7)
}

proof fn lemma_groups(b: Seq<u8>)
    requires
        b.len() == 16,
    ensures
        ipv6_groups(
            ipv6_group(b, 0) + ipv6_group(b, 1) + (ipv6_group(b, 2) + ipv6_group(b, 3)) + (ipv6_group(b, 4)
                + ipv6_group(b, 5)) + (ipv6_group(b, 6) + ipv6_group(b, 7)),
        ) == ipv6_text(b),
{
    let g0 = ipv6_group(b, 0);
    let g1 = ipv6_group(b, 1);
    let g2 = ipv6_group(b, 2);
    let g3 = ipv6_group(b, 3);
    let g4 = ipv6_group(b, 4);
    let g5 = ipv6_group(b, 5);
    let g6 = ipv6_group(b, 6);
    let g7 = ipv6_group(b, 7);
    lemma_hex_digits(256 * (b[0] as nat) + b[1] as nat, 4, false);
    lemma_hex_digits(256 * (b[2] as nat) + b[3] as nat, 4, false);
    lemma_hex_digits(256 * (b[4] as nat) + b[5] as nat, 4, false);
    lemma_hex_digits(256 * (b[6] as nat) + b[7] as nat, 4, false);
    lemma_hex_digits(256 * (b[8] as nat) + b[9] as nat, 4, false);
    lemma_hex_digits(256 * (b[10] as nat) + b[11] as nat, 4, false);
    lemma_hex_digits(256 * (b[12] as nat) + b[13] as nat, 4, false);
    lemma_hex_digits(256 * (b[14] as nat) + b[15] as nat, 4, false);
    assert(g0.len() == 4 && g1.len() == 4 && g2.len() == 4 && g3.len() == 4);
    assert(g4.len() == 4 && g5.len() == 4 && g6.len() == 4 && g7.len() == 4);
    let hh = g0 + g1 + (g2 + g3) + (g4 + g5) + (g6 + g7);
    assert(hh.subrange(0, 4) =~= g0);
    assert(hh.subrange(4, 8) =~= g1);
    assert(hh.subrange(8, 12) =~= g2);
    assert(hh.subrange(12, 16) =~= g3);
    assert(hh.subrange(16, 20) =~= g4);
    assert(hh.subrange(20, 24) =~= g5);
    assert(hh.subrange(24, 28) =~= g6);
    assert(hh.subrange(28, 32) =~= g7);
}

proof fn lemma_words(b: Seq<u8>, upper: bool)
    requires
        b.len() == 16,
    ensures
        spec_ipv6_words(proc_ipv6_hex(b, upper)) == Some(ipv6_text(b)),
{
    lemma_no_colon(b, upper);
    lemma_proc_word(b, 0, upper);
    lemma_proc_word(b, 1, upper);
    lemma_proc_word(b, 2, upper);
    lemma_proc_word(b, 3, upper);
    lemma_groups(b);
    assert(2 * 0 + 1 == 1 && 2 * 1 == 2 && 2 * 1 + 1 == 3 && 2 * 2 == 4 && 2 * 2 + 1 == 5 && 2 * 3 == 6
        && 2 * 3 + 1 == 7);
}

/// An IPv6 socket written as `/proc/net/tcp6` writes it (each 4-byte group
/// of the address as a little-endian word in eight hex digits, upper or
/// lower case, a colon, the port in four) parses to the eight groups
/// `b0b1:b2b3:…:b14b15` in lowercase hex, and the port.
pub proof fn law_hex_addr_ipv6_round_trip(b: Seq<u8>, p: u16, upper: bool)
    requires
        b.len() == 16,
    ensures
        spec_parse_hex_addr(proc_ipv6_hex(b, upper) + ":"@ + hex_digits(p as nat, 4, upper)) == Some(
            (ipv6_text(b), p),
        ),
{
    lemma_no_colon(b, upper);
    lemma_split_colon(proc_ipv6_hex(b, upper), hex_digits(p as nat, 4, upper));
    lemma_port(p, upper);
    lemma_words(b, upper);
}

} // verus!
