//! Character-level text handling: the views of strings are `Seq<char>`, and
//! every splitting, trimming and number-parsing step used by the parsers and
//! renderers of this crate is specified here over those sequences.
use vstd::prelude::*;

verus! {

// ───────────────────────────── strings ─────────────────────────────────────

/// `String::push` appends one character.
pub assume_specification[ String::push ](s: &mut String, ch: char)
    ensures
        final(s)@ == old(s)@.push(ch),
;

/// The characters of a string slice, in order.
pub fn chars_of(s: &str) -> (v: Vec<char>)
    ensures
        v@ == s@,
{
    let mut v: Vec<char> = Vec::new();
    for c in it: s.chars()
        invariant
            v@ == it.seq().take(it.index() as int),
            it.seq() == s@,
    {
        v.push(c);
    }
    v
}

/// A string holding exactly the given characters.
pub fn string_of(v: &[char]) -> (s: String)
    ensures
        s@ == v@,
{
    let mut s = String::new();
    let mut i: usize = 0;
    while i < v.len()
        invariant
            i <= v@.len(),
            s@ == v@.take(i as int),
        decreases v@.len() - i,
    {
        s.push(v[i]);
        i += 1;
        assert(v@.take(i as int) == v@.take(i - 1).push(v@[i - 1]));
    }
    assert(v@.take(v@.len() as int) == v@);
    s
}

/// Appends a string slice.
pub fn push_str(s: &mut String, t: &str)
    ensures
        final(s)@ == old(s)@ + t@,
{
    s.append(t);
}

/// Equality of two character slices.
pub fn chars_eq(a: &[char], b: &[char]) -> (r: bool)
    ensures
        r == (a@ == b@),
{
    if a.len() != b.len() {
        return false;
    }
    let mut i: usize = 0;
    while i < a.len()
        invariant
            a@.len() == b@.len(),
            i <= a@.len(),
            forall|k: int| 0 <= k < i ==> a@[k] == b@[k],
        decreases a@.len() - i,
    {
        if a[i] != b[i] {
            return false;
        }
        i += 1;
    }
    assert(a@ =~= b@);
    true
}

/// Equality of two strings.
pub fn str_eq(a: &str, b: &str) -> (r: bool)
    ensures
        r == (a@ == b@),
{
    let x = chars_of(a);
    let y = chars_of(b);
    chars_eq(x.as_slice(), y.as_slice())
}

/// The views of a sequence of character vectors.
pub open spec fn views(v: Seq<Vec<char>>) -> Seq<Seq<char>> {
    Seq::new(v.len(), |i: int| v[i]@)
}

/// The views of a sequence of strings.
pub open spec fn string_views(v: Seq<String>) -> Seq<Seq<char>> {
    Seq::new(v.len(), |i: int| v[i]@)
}

pub proof fn lemma_views_push(v: Seq<Vec<char>>, x: Vec<char>)
    ensures
        views(v.push(x)) == views(v).push(x@),
{
    assert(views(v.push(x)) =~= views(v).push(x@));
}

// ───────────────────────────── prefixes, substrings ────────────────────────

pub open spec fn starts_with(s: Seq<char>, p: Seq<char>) -> bool {
    p.len() <= s.len() && s.subrange(0, p.len() as int) == p
}

pub open spec fn occurs_at(s: Seq<char>, p: Seq<char>, i: int) -> bool {
    0 <= i && i + p.len() <= s.len() && s.subrange(i, i + p.len()) == p
}

pub open spec fn contains_seq(s: Seq<char>, p: Seq<char>) -> bool {
    exists|i: int| occurs_at(s, p, i)
}

/// Whether `p` occurs in `s` at position `i`.
pub fn occurs_at_exec(s: &[char], p: &[char], i: usize) -> (r: bool)
    ensures
        r == occurs_at(s@, p@, i as int),
{
    if i > s.len() || p.len() > s.len() - i {
        return false;
    }
    let n: usize = s.len();
    let mut k: usize = 0;
    while k < p.len()
        invariant
            n == s@.len(),
            i + p@.len() <= s@.len(),
            k <= p@.len(),
            forall|j: int| 0 <= j < k ==> s@[i + j] == p@[j],
        decreases p@.len() - k,
    {
        assert(i + k < s@.len());
        if s[i + k] != p[k] {
            assert(s@.subrange(i as int, i + p@.len())[k as int] != p@[k as int]);
            return false;
        }
        k += 1;
    }
    assert(s@.subrange(i as int, i + p@.len()) =~= p@);
    true
}

pub fn starts_with_exec(s: &[char], p: &[char]) -> (r: bool)
    ensures
        r == starts_with(s@, p@),
{
    occurs_at_exec(s, p, 0)
}

pub fn contains_exec(s: &[char], p: &[char]) -> (r: bool)
    ensures
        r == contains_seq(s@, p@),
{
    if p.len() > s.len() {
        assert(!contains_seq(s@, p@));
        return false;
    }
    if p.len() == 0 {
        assert(s@.subrange(0, 0) =~= p@);
        assert(occurs_at(s@, p@, 0));
        return true;
    }
    let n: usize = s.len();
    let mut i: usize = 0;
    while i <= s.len() - p.len()
        invariant
            n == s@.len(),
            1 <= p@.len() <= s@.len(),
            i <= s@.len() - p@.len() + 1,
            forall|j: int| 0 <= j < i ==> !occurs_at(s@, p@, j),
        decreases s@.len() - p@.len() + 1 - i,
    {
        if occurs_at_exec(s, p, i) {
            return true;
        }
        i += 1;
    }
    assert forall|j: int| !occurs_at(s@, p@, j) by {
        if 0 <= j && j + p@.len() <= s@.len() {
            assert(j < i);
        }
    }
    false
}

/// Whether a string slice starts with a prefix.
pub fn str_starts_with(s: &str, p: &str) -> (r: bool)
    ensures
        r == starts_with(s@, p@),
{
    let a = chars_of(s);
    let b = chars_of(p);
    starts_with_exec(a.as_slice(), b.as_slice())
}

/// Whether a string slice contains a substring.
pub fn str_contains(s: &str, p: &str) -> (r: bool)
    ensures
        r == contains_seq(s@, p@),
{
    let a = chars_of(s);
    let b = chars_of(p);
    contains_exec(a.as_slice(), b.as_slice())
}

/// `s[i..j]` as a new vector.
pub fn slice_vec(s: &[char], i: usize, j: usize) -> (r: Vec<char>)
    requires
        i <= j <= s@.len(),
    ensures
        r@ == s@.subrange(i as int, j as int),
{
    let mut r: Vec<char> = Vec::new();
    let mut k: usize = i;
    while k < j
        invariant
            i <= k <= j <= s@.len(),
            r@ == s@.subrange(i as int, k as int),
        decreases j - k,
    {
        r.push(s[k]);
        k += 1;
        assert(s@.subrange(i as int, k as int) == s@.subrange(i as int, k - 1).push(s@[k - 1]));
    }
    r
}

// ───────────────────────────── whitespace, trimming ────────────────────────

/// `char::is_whitespace`: the Unicode White_Space property.
pub open spec fn is_ws(c: char) -> bool {
    let u = c as u32;
    ||| 0x09 <= u <= 0x0d
    ||| u == 0x20
    ||| u == 0x85
    ||| u == 0xa0
    ||| u == 0x1680
    ||| 0x2000 <= u <= 0x200a
    ||| u == 0x2028
    ||| u == 0x2029
    ||| u == 0x202f
    ||| u == 0x205f
    ||| u == 0x3000
}

pub fn is_ws_exec(c: char) -> (r: bool)
    ensures
        r == is_ws(c),
{
    let u = c as u32;
    (0x09 <= u && u <= 0x0d) || u == 0x20 || u == 0x85 || u == 0xa0 || u == 0x1680 || (0x2000
        <= u && u <= 0x200a) || u == 0x2028 || u == 0x2029 || u == 0x202f || u == 0x205f || u
        == 0x3000
}

/// The first index at or after `i` that does not hold whitespace.
pub open spec fn skip_ws(s: Seq<char>, i: int) -> int
    decreases s.len() - i,
{
    if 0 <= i < s.len() && is_ws(s[i]) {
        skip_ws(s, i + 1)
    } else {
        i
    }
}

/// The end of `s[lo..j]` once trailing whitespace is dropped.
pub open spec fn back_ws(s: Seq<char>, lo: int, j: int) -> int
    decreases j - lo,
{
    if lo < j && j <= s.len() && is_ws(s[j - 1]) {
        back_ws(s, lo, j - 1)
    } else {
        j
    }
}

/// `str::trim`.
pub open spec fn trim(s: Seq<char>) -> Seq<char> {
    let a = skip_ws(s, 0);
    s.subrange(a, back_ws(s, a, s.len() as int))
}

pub proof fn lemma_skip_ws_bounds(s: Seq<char>, i: int)
    requires
        0 <= i <= s.len(),
    ensures
        i <= skip_ws(s, i) <= s.len(),
        skip_ws(s, i) < s.len() ==> !is_ws(s[skip_ws(s, i)]),
        forall|k: int| i <= k < skip_ws(s, i) ==> is_ws(s[k]),
    decreases s.len() - i,
{
    if i < s.len() && is_ws(s[i]) {
        lemma_skip_ws_bounds(s, i + 1);
    }
}

pub proof fn lemma_back_ws_bounds(s: Seq<char>, lo: int, j: int)
    requires
        0 <= lo <= j <= s.len(),
    ensures
        lo <= back_ws(s, lo, j) <= j,
        back_ws(s, lo, j) > lo ==> !is_ws(s[back_ws(s, lo, j) - 1]),
        forall|k: int| back_ws(s, lo, j) <= k < j ==> is_ws(s[k]),
    decreases j - lo,
{
    if lo < j && is_ws(s[j - 1]) {
        lemma_back_ws_bounds(s, lo, j - 1);
    }
}

/// `str::trim` on characters.
pub fn trim_exec(s: &[char]) -> (r: Vec<char>)
    ensures
        r@ == trim(s@),
{
    let mut i: usize = 0;
    while i < s.len() && is_ws_exec(s[i])
        invariant
            i <= s@.len(),
            skip_ws(s@, 0) == skip_ws(s@, i as int),
        decreases s@.len() - i,
    {
        i += 1;
    }
    let mut j: usize = s.len();
    while j > i && is_ws_exec(s[j - 1])
        invariant
            i <= j <= s@.len(),
            back_ws(s@, i as int, s@.len() as int) == back_ws(s@, i as int, j as int),
        decreases j - i,
    {
        j -= 1;
    }
    slice_vec(s, i, j)
}

// ───────────────────────────── splitting ───────────────────────────────────

/// The first index at or after `i` holding `c`, or the length.
pub open spec fn find_char(s: Seq<char>, i: int, c: char) -> int
    decreases s.len() - i,
{
    if i < 0 || i >= s.len() {
        if i < 0 { 0 } else { i }
    } else if s[i] == c {
        i
    } else {
        find_char(s, i + 1, c)
    }
}

pub proof fn lemma_find_char(s: Seq<char>, i: int, c: char)
    requires
        0 <= i <= s.len(),
    ensures
        i <= find_char(s, i, c) <= s.len(),
        find_char(s, i, c) < s.len() ==> s[find_char(s, i, c)] == c,
        forall|k: int| i <= k < find_char(s, i, c) ==> s[k] != c,
    decreases s.len() - i,
{
    if i < s.len() && s[i] != c {
        lemma_find_char(s, i + 1, c);
    }
}

pub fn find_char_exec(s: &[char], i: usize, c: char) -> (r: usize)
    requires
        i <= s@.len(),
    ensures
        r == find_char(s@, i as int, c),
{
    let mut k: usize = i;
    while k < s.len() && s[k] != c
        invariant
            i <= k <= s@.len(),
            find_char(s@, i as int, c) == find_char(s@, k as int, c),
        decreases s@.len() - k,
    {
        k += 1;
    }
    k
}

/// `str::split(c)` from index `i`: always at least one piece.
pub open spec fn split_from(s: Seq<char>, i: int, c: char) -> Seq<Seq<char>>
    decreases s.len() + 1 - i,
{
    if i < 0 || i > s.len() {
        seq![]
    } else {
        let e = find_char(s, i, c);
        if i <= e < s.len() {
            seq![s.subrange(i, e)] + split_from(s, e + 1, c)
        } else {
            seq![s.subrange(i, s.len() as int)]
        }
    }
}

/// `str::split(c)`.
pub open spec fn split_on(s: Seq<char>, c: char) -> Seq<Seq<char>> {
    split_from(s, 0, c)
}

pub fn split_exec(s: &[char], c: char) -> (r: Vec<Vec<char>>)
    ensures
        views(r@) == split_on(s@, c),
{
    let mut r: Vec<Vec<char>> = Vec::new();
    let mut i: usize = 0;
    loop
        invariant
            i <= s@.len(),
            views(r@) + split_from(s@, i as int, c) == split_on(s@, c),
        decreases s@.len() - i,
    {
        let e = find_char_exec(s, i, c);
        proof {
            lemma_find_char(s@, i as int, c);
        }
        let piece = slice_vec(s, i, e);
        let ghost before = views(r@);
        let ghost pv = piece@;
        proof {
            lemma_views_push(r@, piece);
        }
        r.push(piece);
        assert(views(r@) == before.push(pv));
        if e < s.len() {
            assert(split_from(s@, i as int, c) == seq![s@.subrange(i as int, e as int)]
                + split_from(s@, e + 1, c));
            assert(views(r@) + split_from(s@, e + 1, c) == before + split_from(
                s@,
                i as int,
                c,
            ));
            i = e + 1;
        } else {
            assert(views(r@) == before + split_from(s@, i as int, c));
            return r;
        }
    }
}

/// `str::split_once(c)`: the text before and after the first `c`.
pub open spec fn split_once(s: Seq<char>, c: char) -> Option<(Seq<char>, Seq<char>)> {
    let e = find_char(s, 0, c);
    if e < s.len() {
        Some((s.subrange(0, e), s.subrange(e + 1, s.len() as int)))
    } else {
        None
    }
}

pub fn split_once_exec(s: &[char], c: char) -> (r: Option<(Vec<char>, Vec<char>)>)
    ensures
        match r {
            Some((a, b)) => split_once(s@, c) == Some((a@, b@)),
            None => split_once(s@, c) is None,
        },
{
    let e = find_char_exec(s, 0, c);
    proof {
        lemma_find_char(s@, 0, c);
    }
    if e < s.len() {
        let a = slice_vec(s, 0, e);
        let b = slice_vec(s, e + 1, s.len());
        Some((a, b))
    } else {
        None
    }
}

/// The first index at or after `i` holding whitespace, or the length.
pub open spec fn find_ws(s: Seq<char>, i: int) -> int
    decreases s.len() - i,
{
    if i < 0 || i >= s.len() {
        if i < 0 { 0 } else { i }
    } else if is_ws(s[i]) {
        i
    } else {
        find_ws(s, i + 1)
    }
}

pub proof fn lemma_find_ws(s: Seq<char>, i: int)
    requires
        0 <= i <= s.len(),
    ensures
        i <= find_ws(s, i) <= s.len(),
        find_ws(s, i) < s.len() ==> is_ws(s[find_ws(s, i)]),
        forall|k: int| i <= k < find_ws(s, i) ==> !is_ws(s[k]),
    decreases s.len() - i,
{
    if i < s.len() && !is_ws(s[i]) {
        lemma_find_ws(s, i + 1);
    }
}

/// `str::split_whitespace` from index `i`.
pub open spec fn ws_tokens_from(s: Seq<char>, i: int) -> Seq<Seq<char>>
    decreases s.len() - i,
{
    if i < 0 || i >= s.len() {
        seq![]
    } else if is_ws(s[i]) {
        ws_tokens_from(s, i + 1)
    } else {
        let e = find_ws(s, i + 1);
        if e <= i {
            seq![]
        } else if e > s.len() {
            seq![]
        } else {
            seq![s.subrange(i, e)] + ws_tokens_from(s, e)
        }
    }
}

/// `str::split_whitespace`.
pub open spec fn ws_tokens(s: Seq<char>) -> Seq<Seq<char>> {
    ws_tokens_from(s, 0)
}

pub fn split_whitespace_exec(s: &[char]) -> (r: Vec<Vec<char>>)
    ensures
        views(r@) == ws_tokens(s@),
{
    let mut r: Vec<Vec<char>> = Vec::new();
    let mut i: usize = 0;
    while i < s.len()
        invariant
            i <= s@.len(),
            views(r@) + ws_tokens_from(s@, i as int) == ws_tokens(s@),
        decreases s@.len() - i,
    {
        if is_ws_exec(s[i]) {
            i += 1;
        } else {
            let mut e: usize = i + 1;
            while e < s.len() && !is_ws_exec(s[e])
                invariant
                    i < e <= s@.len(),
                    find_ws(s@, i + 1) == find_ws(s@, e as int),
                decreases s@.len() - e,
            {
                e += 1;
            }
            let piece = slice_vec(s, i, e);
            let ghost before = views(r@);
            let ghost pv = piece@;
            proof {
                lemma_views_push(r@, piece);
            }
            r.push(piece);
            assert(views(r@) == before.push(pv));
            assert(ws_tokens_from(s@, i as int) == seq![s@.subrange(i as int, e as int)]
                + ws_tokens_from(s@, e as int));
            assert(views(r@) + ws_tokens_from(s@, e as int) == before + ws_tokens_from(
                s@,
                i as int,
            ));
            i = e;
        }
    }
    assert(views(r@) + ws_tokens_from(s@, i as int) == views(r@));
    r
}

/// Drops one trailing carriage return.
pub open spec fn strip_cr(s: Seq<char>) -> Seq<char> {
    if s.len() > 0 && s.last() == '\r' {
        s.drop_last()
    } else {
        s
    }
}

/// `str::lines` from index `i`: pieces end at `\n` (a `\r` before it is
/// dropped); a last piece without `\n` is kept as it is; no piece follows a
/// final `\n`.
pub open spec fn lines_from(s: Seq<char>, i: int) -> Seq<Seq<char>>
    decreases s.len() - i,
{
    if i < 0 || i >= s.len() {
        seq![]
    } else {
        let e = find_char(s, i, '\n');
        if i <= e < s.len() {
            seq![strip_cr(s.subrange(i, e))] + lines_from(s, e + 1)
        } else {
            seq![s.subrange(i, s.len() as int)]
        }
    }
}

/// `str::lines`.
pub open spec fn lines(s: Seq<char>) -> Seq<Seq<char>> {
    lines_from(s, 0)
}

pub fn strip_cr_exec(v: Vec<char>) -> (r: Vec<char>)
    ensures
        r@ == strip_cr(v@),
{
    let mut v = v;
    if v.len() > 0 && v[v.len() - 1] == '\r' {
        v.pop();
    }
    v
}

pub fn lines_exec(s: &[char]) -> (r: Vec<Vec<char>>)
    ensures
        views(r@) == lines(s@),
{
    let mut r: Vec<Vec<char>> = Vec::new();
    let mut i: usize = 0;
    while i < s.len()
        invariant
            i <= s@.len(),
            views(r@) + lines_from(s@, i as int) == lines(s@),
        decreases s@.len() - i,
    {
        let e = find_char_exec(s, i, '\n');
        proof {
            lemma_find_char(s@, i as int, '\n');
        }
        let ghost before = views(r@);
        if e < s.len() {
            let piece = strip_cr_exec(slice_vec(s, i, e));
            let ghost pv = piece@;
            proof {
                lemma_views_push(r@, piece);
            }
            r.push(piece);
            assert(views(r@) == before.push(pv));
            assert(views(r@) + lines_from(s@, e + 1) == before + lines_from(s@, i as int));
            i = e + 1;
        } else {
            let piece = slice_vec(s, i, s.len());
            let ghost pv = piece@;
            proof {
                lemma_views_push(r@, piece);
            }
            r.push(piece);
            assert(views(r@) == before.push(pv));
            assert(views(r@) + lines_from(s@, s@.len() as int) == before + lines_from(
                s@,
                i as int,
            ));
            i = s.len();
        }
    }
    assert(views(r@) + lines_from(s@, i as int) == views(r@));
    r
}

// ───────────────────────────── numbers ─────────────────────────────────────

/// The value of a digit in the given radix (10 or 16), if it is one.
pub open spec fn digit_value(c: char, radix: nat) -> Option<nat> {
    let u = c as u32;
    if 0x30 <= u <= 0x39 && (u - 0x30) < radix {
        Some((u - 0x30) as nat)
    } else if radix == 16 && 0x61 <= u <= 0x66 {
        Some((u - 0x61 + 10) as nat)
    } else if radix == 16 && 0x41 <= u <= 0x46 {
        Some((u - 0x41 + 10) as nat)
    } else {
        None
    }
}

pub open spec fn all_digits(s: Seq<char>, radix: nat) -> bool {
    forall|i: int| 0 <= i < s.len() ==> (#[trigger] digit_value(s[i], radix)) is Some
}

/// The value of a string of digits, most significant first.
pub open spec fn digits_value(s: Seq<char>, radix: nat) -> nat
    decreases s.len(),
{
    if s.len() == 0 {
        0
    } else {
        digits_value(s.drop_last(), radix) * radix + match digit_value(s.last(), radix) {
            Some(d) => d,
            None => 0,
        }
    }
}

/// Integer parsing of an unsigned type (`FromStr`, `from_str_radix`): an
/// optional `+` and at least one digit; the value, before any bound.
pub open spec fn parse_unsigned(s: Seq<char>, radix: nat) -> Option<nat> {
    let t = if s.len() > 0 && s[0] == '+' {
        s.drop_first()
    } else {
        s
    };
    if t.len() > 0 && all_digits(t, radix) {
        Some(digits_value(t, radix))
    } else {
        None
    }
}

/// Parsing into an unsigned type whose largest value is `max`.
pub open spec fn parse_bounded(s: Seq<char>, radix: nat, max: nat) -> Option<nat> {
    match parse_unsigned(s, radix) {
        Some(v) => if v <= max {
            Some(v)
        } else {
            None
        },
        None => None,
    }
}

pub open spec fn parse_u16(s: Seq<char>) -> Option<nat> {
    parse_bounded(s, 10, 0xffff)
}

pub open spec fn parse_u32(s: Seq<char>) -> Option<nat> {
    parse_bounded(s, 10, 0xffff_ffff)
}

pub proof fn lemma_digits_value_grows(s: Seq<char>, radix: nat, i: int, j: int)
    requires
        radix >= 1,
        0 <= i <= j <= s.len(),
    ensures
        digits_value(s.take(i), radix) <= digits_value(s.take(j), radix),
    decreases j - i,
{
    if i < j {
        lemma_digits_value_grows(s, radix, i, j - 1);
        assert(s.take(j).drop_last() == s.take(j - 1));
        let v = digits_value(s.take(j - 1), radix);
        assert(v * radix >= v) by (nonlinear_arith)
            requires
                radix >= 1,
        ;
    }
}

pub fn digit_value_exec(c: char, radix: u32) -> (r: Option<u32>)
    requires
        radix == 10 || radix == 16,
    ensures
        match r {
            Some(d) => digit_value(c, radix as nat) == Some(d as nat) && d < radix,
            None => digit_value(c, radix as nat) is None,
        },
{
    let u = c as u32;
    if 0x30 <= u && u <= 0x39 && (u - 0x30) < radix {
        Some(u - 0x30)
    } else if radix == 16 && 0x61 <= u && u <= 0x66 {
        Some(u - 0x61 + 10)
    } else if radix == 16 && 0x41 <= u && u <= 0x46 {
        Some(u - 0x41 + 10)
    } else {
        None
    }
}

/// Parses an unsigned integer no larger than `max`.
pub fn parse_bounded_exec(s: &[char], radix: u32, max: u64) -> (r: Option<u64>)
    requires
        radix == 10 || radix == 16,
    ensures
        match r {
            Some(v) => parse_bounded(s@, radix as nat, max as nat) == Some(v as nat),
            None => parse_bounded(s@, radix as nat, max as nat) is None,
        },
{
    let start: usize = if s.len() > 0 && s[0] == '+' {
        1
    } else {
        0
    };
    let ghost t = if s@.len() > 0 && s@[0] == '+' {
        s@.drop_first()
    } else {
        s@
    };
    assert(t == s@.subrange(start as int, s@.len() as int));
    assert(parse_unsigned(s@, radix as nat) == (if t.len() > 0 && all_digits(t, radix as nat) {
        Some(digits_value(t, radix as nat))
    } else {
        None
    }));
    if start >= s.len() {
        assert(t.len() == 0);
        return None;
    }
    let mut acc: u64 = 0;
    let mut i: usize = start;
    while i < s.len()
        invariant
            start <= i <= s@.len(),
            t == s@.subrange(start as int, s@.len() as int),
            t.len() > 0,
            parse_unsigned(s@, radix as nat) == (if all_digits(t, radix as nat) {
                Some(digits_value(t, radix as nat))
            } else {
                None
            }),
            radix == 10 || radix == 16,
            acc as nat == digits_value(t.take(i - start), radix as nat),
            acc <= max,
            all_digits(t.take(i - start), radix as nat),
        decreases s@.len() - i,
    {
        let d = match digit_value_exec(s[i], radix) {
            Some(d) => d,
            None => {
                assert(digit_value(t[i - start], radix as nat) is None);
                assert(!all_digits(t, radix as nat));
                assert(parse_unsigned(s@, radix as nat) is None);
                return None;
            },
        };
        let ghost k: int = i - start;
        assert(t.take(k + 1).drop_last() == t.take(k));
        assert(t.take(k + 1).last() == t[k]);
        assert(all_digits(t.take(k + 1), radix as nat)) by {
            assert forall|x: int| 0 <= x < k + 1 implies (#[trigger] digit_value(
                t.take(k + 1)[x],
                radix as nat,
            )) is Some by {
                if x < k {
                    assert(t.take(k + 1)[x] == t.take(k)[x]);
                }
            }
        }
        if (d as u64) > max || acc > (max - d as u64) / (radix as u64) {
            // acc * radix + d > max: the value only grows from here
            assert(acc * radix + d > max) by (nonlinear_arith)
                requires
                    d > max || acc > (max - d) / (radix as int),
                    radix > 0,
                    acc >= 0,
            ;
            assert(digits_value(t.take(k + 1), radix as nat) == acc * radix + d);
            proof {
                lemma_digits_value_grows(t, radix as nat, k + 1, t.len() as int);
                assert(t.take(t.len() as int) == t);
            }
            return None;
        }
        assert(acc * radix + d <= max) by (nonlinear_arith)
            requires
                acc <= (max - d) / (radix as int),
                radix > 0,
                d <= max,
        ;
        acc = acc * (radix as u64) + d as u64;
        i += 1;
    }
    assert(t.take(t.len() as int) == t);
    Some(acc)
}

/// Parses a `u16` in decimal (`str::parse::<u16>`).
pub fn parse_u16_exec(s: &[char]) -> (r: Option<u16>)
    ensures
        match r {
            Some(v) => parse_u16(s@) == Some(v as nat),
            None => parse_u16(s@) is None,
        },
{
    match parse_bounded_exec(s, 10, 0xffff) {
        Some(v) => Some(v as u16),
        None => None,
    }
}

/// Parses a `u32` in decimal (`str::parse::<u32>`).
pub fn parse_u32_exec(s: &[char]) -> (r: Option<u32>)
    ensures
        match r {
            Some(v) => parse_u32(s@) == Some(v as nat),
            None => parse_u32(s@) is None,
        },
{
    match parse_bounded_exec(s, 10, 0xffff_ffff) {
        Some(v) => Some(v as u32),
        None => None,
    }
}

/// The decimal digit for `d < 10`.
pub open spec fn digit_char(d: nat) -> char {
    (d + 0x30) as char
}

/// Decimal representation without leading zeros (`Display` of integers).
pub open spec fn dec(n: nat) -> Seq<char>
    decreases n,
{
    if n < 10 {
        seq![digit_char(n)]
    } else {
        dec(n / 10).push(digit_char(n % 10))
    }
}

/// Appends the decimal representation of `n`.
pub fn push_dec(out: &mut String, n: u64)
    ensures
        final(out)@ == old(out)@ + dec(n as nat),
    decreases n,
{
    if n >= 10 {
        push_dec(out, n / 10);
    }
    let d: u64 = n % 10;
    let c = char_from_digit(d as u32);
    out.push(c);
    assert(old(out)@ + dec(n as nat) == (if n >= 10 {
        old(out)@ + dec((n / 10) as nat)
    } else {
        old(out)@
    }).push(digit_char((n % 10) as nat)));
}

/// The character of a decimal digit.
pub fn char_from_digit(d: u32) -> (c: char)
    requires
        d < 10,
    ensures
        c == digit_char(d as nat),
{
    match d {
        0 => '0',
        1 => '1',
        2 => '2',
        3 => '3',
        4 => '4',
        5 => '5',
        6 => '6',
        7 => '7',
        8 => '8',
        _ => '9',
    }
}

// ───────────────────────────── case mapping ────────────────────────────────

pub open spec fn is_ascii_seq(s: Seq<char>) -> bool {
    forall|i: int| 0 <= i < s.len() ==> (#[trigger] s[i]) as u32 <= 0x7f
}

pub open spec fn ascii_lower_char(c: char) -> char {
    if 0x41 <= c as u32 <= 0x5a {
        ((c as u32) + 0x20) as char
    } else {
        c
    }
}

pub open spec fn ascii_upper_char(c: char) -> char {
    if 0x61 <= c as u32 <= 0x7a {
        ((c as u32) - 0x20) as char
    } else {
        c
    }
}

/// What `str::to_lowercase` returns: the Unicode lowercase mapping of the
/// text, a function of the text alone.
pub uninterp spec fn spec_to_lowercase(s: Seq<char>) -> Seq<char>;

/// What `str::to_uppercase` returns: the Unicode uppercase mapping of the
/// text, a function of the text alone.
pub uninterp spec fn spec_to_uppercase(s: Seq<char>) -> Seq<char>;

/// Calls `str::to_lowercase`. Trusted: the result is the named Unicode
/// lowercase mapping of the argument, and on ASCII text it maps `A`..`Z` to
/// `a`..`z` and keeps every other character, as the std documentation says.
#[verifier::external_body]
pub(crate) fn to_lowercase(s: &str) -> (r: String)
    ensures
        r@ == spec_to_lowercase(s@),
        is_ascii_seq(s@) ==> r@ == s@.map_values(|c: char| ascii_lower_char(c)),
{
    s.to_lowercase()
}

/// Calls `str::to_uppercase`. Trusted: the result is the named Unicode
/// uppercase mapping of the argument, and on ASCII text it maps `a`..`z` to
/// `A`..`Z` and keeps every other character, as the std documentation says.
#[verifier::external_body]
pub(crate) fn to_uppercase(s: &str) -> (r: String)
    ensures
        r@ == spec_to_uppercase(s@),
        is_ascii_seq(s@) ==> r@ == s@.map_values(|c: char| ascii_upper_char(c)),
{
    s.to_uppercase()
}

/// The lowercase mapping of a character vector.
pub fn lowercase_chars(s: &[char]) -> (r: Vec<char>)
    ensures
        r@ == spec_to_lowercase(s@),
{
    let t = string_of(s);
    let l = to_lowercase(t.as_str());
    chars_of(l.as_str())
}

/// The uppercase mapping of a character vector.
pub fn uppercase_chars(s: &[char]) -> (r: Vec<char>)
    ensures
        r@ == spec_to_uppercase(s@),
{
    let t = string_of(s);
    let l = to_uppercase(t.as_str());
    chars_of(l.as_str())
}

} // verus!
