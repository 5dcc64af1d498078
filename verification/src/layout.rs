//! Terminal text layout: display widths (wide East Asian characters take two
//! columns), padding, centring, truncation that skips ANSI escapes, joining,
//! and the short form of a time stamp.
use vstd::prelude::*;
use crate::text::{chars_of, is_ascii_seq, push_str, string_of};

verus! {

// ───────────────────────────── widths ──────────────────────────────────────

/// Characters of the ranges that a terminal draws two columns wide.
pub open spec fn is_wide(c: char) -> bool {
    let u = c as u32;
    ||| 0x1100 <= u <= 0x115F
    ||| 0x2E80 <= u <= 0x303F
    ||| 0x3040 <= u <= 0x9FFF
    ||| 0xAC00 <= u <= 0xD7AF
    ||| 0xF900 <= u <= 0xFAFF
    ||| 0xFE10 <= u <= 0xFE19
    ||| 0xFE30 <= u <= 0xFE6F
    ||| 0xFF00 <= u <= 0xFF60
    ||| 0xFFE0 <= u <= 0xFFE6
}

pub open spec fn char_width(c: char) -> nat {
    if is_wide(c) {
        2
    } else {
        1
    }
}

/// The number of terminal columns of a text.
pub open spec fn display_width(s: Seq<char>) -> nat
    decreases s.len(),
{
    if s.len() == 0 {
        0
    } else {
        display_width(s.drop_last()) + char_width(s.last())
    }
}

/// The columns of one character.
pub fn char_width_exec(c: char) -> (r: usize)
    ensures
        r == char_width(c),
{
    let u = c as u32;
    if (0x1100 <= u && u <= 0x115F) || (0x2E80 <= u && u <= 0x303F) || (0x3040 <= u && u <= 0x9FFF)
        || (0xAC00 <= u && u <= 0xD7AF) || (0xF900 <= u && u <= 0xFAFF) || (0xFE10 <= u && u
        <= 0xFE19) || (0xFE30 <= u && u <= 0xFE6F) || (0xFF00 <= u && u <= 0xFF60) || (0xFFE0
        <= u && u <= 0xFFE6) {
        2
    } else {
        1
    }
}

/// The number of terminal columns of a text (its length in characters must
/// leave room for the double count).
pub fn visual_width(s: &str) -> (r: usize)
    requires
        s@.len() <= usize::MAX / 2,
    ensures
        r == display_width(s@),
{
    let v = chars_of(s);
    let mut w: usize = 0;
    let mut i: usize = 0;
    while i < v.len()
        invariant
            i <= v@.len(),
            v@ == s@,
            v@.len() <= usize::MAX / 2,
            w == display_width(v@.take(i as int)),
            w <= 2 * i,
        decreases v@.len() - i,
    {
        assert(v@.take(i + 1).drop_last() =~= v@.take(i as int));
        w = w + char_width_exec(v[i]);
        i += 1;
    }
    assert(v@.take(v@.len() as int) =~= v@);
    w
}

// ───────────────────────────── runs, padding, centring ─────────────────────

/// `n` copies of `c`.
pub open spec fn char_run(c: char, n: nat) -> Seq<char> {
    Seq::new(n, |i: int| c)
}

pub open spec fn spaces(n: nat) -> Seq<char> {
    char_run(' ', n)
}

/// Appends `n` copies of `c`.
pub fn push_run(out: &mut String, c: char, n: usize)
    ensures
        final(out)@ == old(out)@ + char_run(c, n as nat),
{
    let mut i: usize = 0;
    while i < n
        invariant
            i <= n,
            out@ == old(out)@ + char_run(c, i as nat),
        decreases n - i,
    {
        out.push(c);
        i += 1;
        assert(char_run(c, i as nat) =~= char_run(c, (i - 1) as nat).push(c));
    }
}

/// `s` padded on the right with spaces to `w` characters (as `{:<w}` does).
pub open spec fn pad_right(s: Seq<char>, w: nat) -> Seq<char> {
    if s.len() < w {
        s + spaces((w - s.len()) as nat)
    } else {
        s
    }
}

/// Appends `s` padded on the right with spaces to `w` characters.
pub fn push_padded(out: &mut String, s: &str, w: usize)
    ensures
        final(out)@ == old(out)@ + pad_right(s@, w as nat),
{
    let n = chars_of(s).len();
    push_str(out, s);
    if n < w {
        push_run(out, ' ', w - n);
    }
}

/// `content` centred in `inner` columns, the odd space on the right.
pub open spec fn center_text(content: Seq<char>, content_vw: nat, inner: nat) -> Seq<char> {
    let pad: nat = if inner > content_vw {
        (inner - content_vw) as nat
    } else {
        0
    };
    let left: nat = pad / 2;
    spaces(left) + content + spaces((pad - left) as nat)
}

/// Centres `content`, of `content_vw` columns, in `inner` columns.
pub fn center_in_box(content: &str, content_vw: usize, inner: usize) -> (r: String)
    ensures
        r@ == center_text(content@, content_vw as nat, inner as nat),
{
    let pad: usize = if inner > content_vw {
        inner - content_vw
    } else {
        0
    };
    let left = pad / 2;
    let right = pad - left;
    let mut s = String::new();
    push_run(&mut s, ' ', left);
    push_str(&mut s, content);
    push_run(&mut s, ' ', right);
    s
}

// ───────────────────────────── joining ─────────────────────────────────────

/// The parts separated by `sep`.
pub open spec fn join(parts: Seq<Seq<char>>, sep: Seq<char>) -> Seq<char>
    decreases parts.len(),
{
    if parts.len() == 0 {
        Seq::empty()
    } else if parts.len() == 1 {
        parts[0]
    } else {
        join(parts.drop_last(), sep) + sep + parts.last()
    }
}

/// Appends the parts separated by `sep`.
pub fn push_joined(out: &mut String, parts: &Vec<String>, sep: &str)
    ensures
        final(out)@ == old(out)@ + join(crate::text::string_views(parts@), sep@),
{
    let ghost pv = crate::text::string_views(parts@);
    let mut i: usize = 0;
    assert(pv.take(0) =~= Seq::<Seq<char>>::empty());
    while i < parts.len()
        invariant
            i <= parts@.len(),
            pv == crate::text::string_views(parts@),
            out@ == old(out)@ + join(pv.take(i as int), sep@),
        decreases parts@.len() - i,
    {
        assert(pv.take(i + 1).drop_last() =~= pv.take(i as int));
        assert(pv.take(i + 1).last() == parts@[i as int]@);
        if i > 0 {
            push_str(out, sep);
        } else {
            assert(pv.take(1)[0] == parts@[0]@);
        }
        push_str(out, parts[i].as_str());
        i += 1;
    }
    assert(pv.take(parts@.len() as int) =~= pv);
}

// ───────────────────────────── truncation ──────────────────────────────────

pub open spec fn is_ascii_alpha(c: char) -> bool {
    ('A' <= c && c <= 'Z') || ('a' <= c && c <= 'z')
}

/// The columns a text takes on a terminal, starting inside an escape
/// sequence or not: escape sequences (from ESC to the next ASCII letter)
/// take none, other characters their `char_width`.
pub open spec fn shown_width(t: Seq<char>, in_esc: bool) -> nat
    decreases t.len(),
{
    if t.len() == 0 {
        0
    } else {
        let c = t[0];
        if c == '\x1b' {
            shown_width(t.drop_first(), true)
        } else if in_esc {
            shown_width(t.drop_first(), !is_ascii_alpha(c))
        } else {
            char_width(c) + shown_width(t.drop_first(), false)
        }
    }
}

/// Cutting from position `i` with `vis` columns used and inside an escape
/// sequence or not: escape sequences are copied and take no columns; at the
/// first character that would pass `budget` columns, `…` ends the text.
pub open spec fn trunc_from(s: Seq<char>, i: int, vis: nat, in_esc: bool, budget: nat) -> Seq<char>
    decreases s.len() - i,
{
    if i < 0 || i >= s.len() {
        Seq::empty()
    } else {
        let c = s[i];
        if c == '\x1b' {
            seq![c] + trunc_from(s, i + 1, vis, true, budget)
        } else if in_esc {
            seq![c] + trunc_from(s, i + 1, vis, !is_ascii_alpha(c), budget)
        } else if vis + char_width(c) > budget {
            seq!['…']
        } else {
            seq![c] + trunc_from(s, i + 1, vis + char_width(c), false, budget)
        }
    }
}

/// `s` within `max` columns: unchanged when it fits, else cut to `max - 1`
/// columns and ended with `…` (nothing at all when `max` is zero).
pub open spec fn trunc_text(s: Seq<char>, max: nat) -> Seq<char> {
    if shown_width(s, false) <= max {
        s
    } else if max == 0 {
        Seq::empty()
    } else {
        trunc_from(s, 0, 0, false, (max - 1) as nat)
    }
}

/// Whether `v` takes at most `max` columns (see `shown_width`).
fn fits_within(v: &[char], max: usize) -> (r: bool)
    ensures
        r == (shown_width(v@, false) <= max),
{
    let mut vis: usize = 0;
    let mut in_esc = false;
    let mut i: usize = 0;
    assert(v@.skip(0) =~= v@);
    while i < v.len()
        invariant
            i <= v@.len(),
            vis <= max,
            shown_width(v@, false) == vis + shown_width(v@.skip(i as int), in_esc),
        decreases v@.len() - i,
    {
        let c = v[i];
        assert(v@.skip(i as int).drop_first() =~= v@.skip(i + 1));
        assert(v@.skip(i as int)[0] == c);
        if c == '\x1b' {
            in_esc = true;
        } else if in_esc {
            if ('A' <= c && c <= 'Z') || ('a' <= c && c <= 'z') {
                in_esc = false;
            }
        } else {
            let w = char_width_exec(c);
            if w > max - vis {
                return false;
            }
            vis += w;
        }
        i += 1;
    }
    assert(v@.skip(i as int) =~= Seq::<char>::empty());
    true
}

/// The cut of `v` at `budget` columns, ended with `…` (see `trunc_from`).
fn trunc_cut(v: &Vec<char>, budget: usize) -> (r: String)
    ensures
        r@ == trunc_from(v@, 0, 0, false, budget as nat),
{
    let mut vis: usize = 0;
    let mut result = String::new();
    let mut in_esc = false;
    let mut i: usize = 0;
    while i < v.len()
        invariant
            i <= v@.len(),
            vis <= budget,
            result@ + trunc_from(v@, i as int, vis as nat, in_esc, budget as nat) == trunc_from(
                v@,
                0,
                0,
                false,
                budget as nat,
            ),
        decreases v@.len() - i,
    {
        let c = v[i];
        let ghost rest = trunc_from(v@, i + 1, vis as nat, true, budget as nat);
        if c == '\x1b' {
            in_esc = true;
            result.push(c);
            assert(result@ + trunc_from(v@, i + 1, vis as nat, in_esc, budget as nat) =~= (
            result@.drop_last()) + (seq![c] + rest));
            i += 1;
            continue;
        }
        if in_esc {
            let ghost rest2 = trunc_from(v@, i + 1, vis as nat, !is_ascii_alpha(c), budget as nat);
            result.push(c);
            if ('A' <= c && c <= 'Z') || ('a' <= c && c <= 'z') {
                in_esc = false;
            }
            assert(result@ + trunc_from(v@, i + 1, vis as nat, in_esc, budget as nat) =~= (
            result@.drop_last()) + (seq![c] + rest2));
            i += 1;
            continue;
        }
        let w = char_width_exec(c);
        if w > budget - vis {
            result.push('…');
            assert(trunc_from(v@, i as int, vis as nat, in_esc, budget as nat) == seq!['…']);
            assert(result@ =~= result@.drop_last() + seq!['…']);
            assert(trunc_from(v@, v@.len() as int, vis as nat, false, budget as nat) =~= Seq::<
                char,
            >::empty());
            assert(result@ + trunc_from(v@, v@.len() as int, vis as nat, false, budget as nat)
                =~= result@);
            return result;
        }
        let ghost rest3 = trunc_from(v@, i + 1, (vis + w) as nat, false, budget as nat);
        vis += w;
        result.push(c);
        assert(result@ + trunc_from(v@, i + 1, vis as nat, in_esc, budget as nat) =~= (
        result@.drop_last()) + (seq![c] + rest3));
        i += 1;
    }
    assert(trunc_from(v@, i as int, vis as nat, in_esc, budget as nat) =~= Seq::<char>::empty());
    assert(result@ + Seq::<char>::empty() =~= result@);
    result
}

/// Fits `s` in `max_vis` columns (ANSI escapes take none): unchanged when it
/// fits, else cut and ended with `…`, which counts within the limit.
pub fn trunc(s: &str, max_vis: usize) -> (r: String)
    ensures
        r@ == trunc_text(s@, max_vis as nat),
{
    let v = chars_of(s);
    if fits_within(v.as_slice(), max_vis) {
        return string_of(v.as_slice());
    }
    if max_vis == 0 {
        return String::new();
    }
    trunc_cut(&v, max_vis - 1)
}

// ───────────────────────────── time stamps ─────────────────────────────────

/// The number of UTF-8 bytes of a character.
pub open spec fn utf8_width(c: char) -> nat {
    let u = c as u32;
    if u < 0x80 {
        1
    } else if u < 0x800 {
        2
    } else if u < 0x10000 {
        3
    } else {
        4
    }
}

/// The number of UTF-8 bytes of a text.
pub open spec fn utf8_len(s: Seq<char>) -> nat
    decreases s.len(),
{
    if s.len() == 0 {
        0
    } else {
        utf8_len(s.drop_last()) + utf8_width(s.last())
    }
}

/// Byte 16 of the text falls between two characters (or past its end):
/// cutting the first 16 bytes of it is then well defined.
pub open spec fn cut16_ok(s: Seq<char>) -> bool {
    utf8_len(s) < 16 || exists|k: int| 0 <= k <= s.len() && utf8_len(s.take(k)) == 16
}

/// An ASCII text takes one byte per character.
proof fn lemma_ascii_utf8_len(s: Seq<char>)
    requires
        is_ascii_seq(s),
    ensures
        utf8_len(s) == s.len(),
    decreases s.len(),
{
    if s.len() > 0 {
        let p = s.drop_last();
        assert forall|i: int| 0 <= i < p.len() implies (#[trigger] p[i]) as u32 <= 0x7f by {
            assert(p[i] == s[i]);
        }
        lemma_ascii_utf8_len(p);
        assert(s[s.len() - 1] as u32 <= 0x7f);
    }
}

/// An ASCII text can be cut at any byte.
pub proof fn lemma_ascii_cut16(s: Seq<char>)
    requires
        is_ascii_seq(s),
    ensures
        cut16_ok(s),
{
    lemma_ascii_utf8_len(s);
    if s.len() >= 16 {
        let t = s.take(16);
        assert forall|i: int| 0 <= i < t.len() implies (#[trigger] t[i]) as u32 <= 0x7f by {
            assert(t[i] == s[i]);
        }
        lemma_ascii_utf8_len(t);
    }
}

/// `T` replaced by a space.
pub open spec fn t_to_space(s: Seq<char>) -> Seq<char> {
    s.map_values(|c: char| if c == 'T' { ' ' } else { c })
}

/// "YYYY-MM-DD HH:MM" of an RFC3339 time stamp: its first 16 bytes with `T`
/// replaced by a space, or the whole text when shorter.
pub open spec fn time_text(s: Seq<char>) -> Seq<char> {
    if utf8_len(s) >= 16 {
        t_to_space(s.take(choose|k: int| 0 <= k <= s.len() && utf8_len(s.take(k)) == 16))
    } else {
        s
    }
}

pub proof fn lemma_utf8_len_take_mono(s: Seq<char>, a: int, b: int)
    requires
        0 <= a <= b <= s.len(),
    ensures
        utf8_len(s.take(a)) <= utf8_len(s.take(b)),
        a < b ==> utf8_len(s.take(a)) < utf8_len(s.take(b)),
    decreases b - a,
{
    if a < b {
        assert(s.take(b).drop_last() =~= s.take(b - 1));
        lemma_utf8_len_take_mono(s, a, b - 1);
    }
}

/// The byte length in UTF-8 of one character.
pub fn utf8_width_exec(c: char) -> (r: usize)
    ensures
        r == utf8_width(c),
{
    let u = c as u32;
    if u < 0x80 {
        1
    } else if u < 0x800 {
        2
    } else if u < 0x10000 {
        3
    } else {
        4
    }
}

/// "YYYY-MM-DD HH:MM" of an RFC3339 time stamp (see `time_text`).
pub fn parse_time_str(ts: &str) -> (r: String)
    requires
        cut16_ok(ts@),
    ensures
        r@ == time_text(ts@),
{
    let v = chars_of(ts);
    let mut bytes: usize = 0;
    let mut i: usize = 0;
    assert(v@.take(0) =~= Seq::<char>::empty());
    while i < v.len() && bytes < 16
        invariant
            i <= v@.len(),
            v@ == ts@,
            bytes == utf8_len(v@.take(i as int)),
            bytes < 20,
            i > 0 ==> utf8_len(v@.take(i - 1)) < 16,
        decreases v@.len() - i,
    {
        assert(v@.take(i + 1).drop_last() =~= v@.take(i as int));
        assert(v@.take(i + 1 - 1) =~= v@.take(i as int));
        bytes = bytes + utf8_width_exec(v[i]);
        i += 1;
    }
    if bytes >= 16 {
        proof {
            let k = choose|k: int| 0 <= k <= v@.len() && utf8_len(v@.take(k)) == 16;
            if utf8_len(v@) < 16 {
                assert(v@.take(v@.len() as int) =~= v@);
                lemma_utf8_len_take_mono(v@, i as int, v@.len() as int);
            }
            if k < i {
                lemma_utf8_len_take_mono(v@, k, i - 1);
                assert(v@.take(i as int).drop_last() =~= v@.take(i - 1));
            } else if k > i {
                lemma_utf8_len_take_mono(v@, i as int, k);
            }
            assert(k == i);
            lemma_utf8_len_take_mono(v@, i as int, v@.len() as int);
            assert(v@.take(v@.len() as int) =~= v@);
        }
        let mut r = String::new();
        let mut j: usize = 0;
        while j < i
            invariant
                j <= i <= v@.len(),
                r@ == t_to_space(v@.take(i as int)).take(j as int),
            decreases i - j,
        {
            if v[j] == 'T' {
                r.push(' ');
            } else {
                r.push(v[j]);
            }
            assert(t_to_space(v@.take(i as int)).take(j + 1) =~= t_to_space(v@.take(i as int)).take(
                j as int,
            ).push(t_to_space(v@.take(i as int))[j as int]));
            j += 1;
        }
        assert(t_to_space(v@.take(i as int)).take(i as int) =~= t_to_space(v@.take(i as int)));
        r
    } else {
        proof {
            assert(i == v@.len());
            assert(v@.take(i as int) =~= v@);
        }
        crate::text::string_of(v.as_slice())
    }
}

/// The first `n` bytes of a text when byte `n` falls between two characters
/// (`str::get(..n)`), else nothing.
pub open spec fn byte_prefix(s: Seq<char>, n: nat) -> Option<Seq<char>> {
    if exists|k: int| 0 <= k <= s.len() && utf8_len(s.take(k)) == n {
        Some(s.take(choose|k: int| 0 <= k <= s.len() && utf8_len(s.take(k)) == n))
    } else {
        None
    }
}

/// The first `n` bytes of a text, when byte `n` is a character boundary
/// (`n` leaves room for one more character's bytes in a `usize`).
pub fn get_byte_prefix(s: &str, n: usize) -> (r: Option<String>)
    requires
        n <= usize::MAX - 4,
    ensures
        match r {
            Some(p) => byte_prefix(s@, n as nat) == Some(p@),
            None => byte_prefix(s@, n as nat) is None,
        },
{
    let v = chars_of(s);
    let mut bytes: usize = 0;
    let mut i: usize = 0;
    assert(v@.take(0) =~= Seq::<char>::empty());
    while i < v.len() && bytes < n
        invariant
            i <= v@.len(),
            v@ == s@,
            n <= usize::MAX - 4,
            bytes == utf8_len(v@.take(i as int)),
            bytes < n + 4,
            i > 0 ==> utf8_len(v@.take(i - 1)) < n,
        decreases v@.len() - i,
    {
        assert(v@.take(i + 1).drop_last() =~= v@.take(i as int));
        assert(v@.take(i + 1 - 1) =~= v@.take(i as int));
        bytes = bytes + utf8_width_exec(v[i]);
        i += 1;
    }
    if bytes == n {
        proof {
            assert(exists|k: int| 0 <= k <= v@.len() && utf8_len(v@.take(k)) == n);
            let k = choose|k: int| 0 <= k <= v@.len() && utf8_len(v@.take(k)) == n;
            if k < i {
                lemma_utf8_len_take_mono(v@, k, i as int);
            } else if k > i {
                lemma_utf8_len_take_mono(v@, i as int, k);
            }
        }
        Some(crate::text::string_of(crate::text::slice_vec(v.as_slice(), 0, i).as_slice()))
    } else {
        proof {
            if exists|k: int| 0 <= k <= v@.len() && utf8_len(v@.take(k)) == n {
                let k = choose|k: int| 0 <= k <= v@.len() && utf8_len(v@.take(k)) == n;
                if bytes > n {
                    if k < i {
                        if k < i - 1 {
                            lemma_utf8_len_take_mono(v@, k, i - 1);
                        }
                    } else if k > i {
                        lemma_utf8_len_take_mono(v@, i as int, k);
                    }
                } else {
                    assert(i == v@.len());
                    assert(v@.take(i as int) =~= v@);
                    lemma_utf8_len_take_mono(v@, k, i as int);
                }
            }
        }
        None
    }
}

// ───────────────────────────── laws ────────────────────────────────────────

proof fn lemma_display_width_prepend(c: char, t: Seq<char>)
    ensures
        display_width(seq![c] + t) == char_width(c) + display_width(t),
    decreases t.len(),
{
    if t.len() > 0 {
        assert((seq![c] + t).drop_last() =~= seq![c] + t.drop_last());
        lemma_display_width_prepend(c, t.drop_last());
    } else {
        assert(seq![c] + t =~= seq![c]);
        assert(seq![c].drop_last() =~= Seq::<char>::empty());
        assert(seq![c].last() == c);
        assert(display_width(Seq::<char>::empty()) == 0);
        assert(display_width(seq![c]) == display_width(seq![c].drop_last()) + char_width(seq![c].last()));
    }
}

/// Without escape sequences the shown width is the display width.
pub proof fn lemma_shown_width_plain(s: Seq<char>)
    requires
        forall|k: int| 0 <= k < s.len() ==> s[k] != '\x1b',
    ensures
        shown_width(s, false) == display_width(s),
    decreases s.len(),
{
    if s.len() > 0 {
        let t = s.drop_first();
        assert forall|k: int| 0 <= k < t.len() implies t[k] != '\x1b' by {
            assert(t[k] == s[k + 1]);
        }
        lemma_shown_width_plain(t);
        assert(s =~= seq![s[0]] + t);
        lemma_display_width_prepend(s[0], t);
    }
}

/// The cut from position `i` with `vis` of `budget` columns used takes at
/// most one column more than the budget left: the `…`.
proof fn lemma_trunc_from_width(s: Seq<char>, i: int, vis: nat, in_esc: bool, budget: nat)
    requires
        0 <= i,
        vis <= budget,
    ensures
        shown_width(trunc_from(s, i, vis, in_esc, budget), in_esc) + vis <= budget + 1,
    decreases s.len() - i,
{
    if i < s.len() {
        let c = s[i];
        let out = trunc_from(s, i, vis, in_esc, budget);
        if c == '\x1b' {
            let t = trunc_from(s, i + 1, vis, true, budget);
            assert(out.drop_first() =~= t);
            assert(out[0] == c);
            assert(shown_width(out, in_esc) == shown_width(t, true));
            lemma_trunc_from_width(s, i + 1, vis, true, budget);
        } else if in_esc {
            let t = trunc_from(s, i + 1, vis, !is_ascii_alpha(c), budget);
            assert(out.drop_first() =~= t);
            assert(out[0] == c);
            assert(shown_width(out, in_esc) == shown_width(t, !is_ascii_alpha(c)));
            lemma_trunc_from_width(s, i + 1, vis, !is_ascii_alpha(c), budget);
        } else if vis + char_width(c) > budget {
            assert(out == seq!['…']);
            assert(out.drop_first() =~= Seq::<char>::empty());
            assert(out[0] == '…');
            assert(('…' as u32) == 0x2026);
            assert(char_width('…') == 1);
            assert(shown_width(Seq::<char>::empty(), false) == 0);
            assert(shown_width(out, false) == 1);
        } else {
            let t = trunc_from(s, i + 1, vis + char_width(c), false, budget);
            assert(out.drop_first() =~= t);
            assert(out[0] == c);
            assert(shown_width(out, false) == char_width(c) + shown_width(t, false));
            lemma_trunc_from_width(s, i + 1, vis + char_width(c), false, budget);
        }
    }
}

/// A text without escape sequences that fits in `max` columns is left
/// unchanged by truncation.
pub proof fn law_trunc_fits(s: Seq<char>, max: nat)
    requires
        forall|k: int| 0 <= k < s.len() ==> s[k] != '\x1b',
        display_width(s) <= max,
    ensures
        trunc_text(s, max) == s,
{
    lemma_shown_width_plain(s);
}

/// Truncation to `max` columns takes at most `max` columns, the `…`
/// included.
pub proof fn law_trunc_within_limit(s: Seq<char>, max: nat)
    ensures
        shown_width(trunc_text(s, max), false) <= max,
{
    if shown_width(s, false) > max && max > 0 {
        lemma_trunc_from_width(s, 0, 0, false, (max - 1) as nat);
    }
}


/// The width of two texts one after the other is the sum of their widths.
pub proof fn law_display_width_concat(a: Seq<char>, b: Seq<char>)
    ensures
        display_width(a + b) == display_width(a) + display_width(b),
    decreases b.len(),
{
    if b.len() == 0 {
        assert(a + b =~= a);
    } else {
        assert((a + b).drop_last() =~= a + b.drop_last());
        assert((a + b).last() == b.last());
        law_display_width_concat(a, b.drop_last());
    }
}

} // verus!
