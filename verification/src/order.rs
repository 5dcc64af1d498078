//! The order of text used to sort edges and names: lexicographic by
//! character code, a shorter prefix first (the order of `str`, whose UTF-8
//! bytes compare as their characters do).
use vstd::prelude::*;
use crate::text::{chars_of, string_views};

verus! {

/// `a` sorts before `b`.
pub open spec fn seq_lt(a: Seq<char>, b: Seq<char>) -> bool
    decreases a.len(),
{
    if a.len() == 0 {
        b.len() > 0
    } else if b.len() == 0 {
        false
    } else if (a[0] as u32) < (b[0] as u32) {
        true
    } else if a[0] == b[0] {
        seq_lt(a.drop_first(), b.drop_first())
    } else {
        false
    }
}

pub proof fn lemma_seq_lt_irreflexive(a: Seq<char>)
    ensures
        !seq_lt(a, a),
    decreases a.len(),
{
    if a.len() > 0 {
        lemma_seq_lt_irreflexive(a.drop_first());
    }
}

pub proof fn lemma_seq_lt_transitive(a: Seq<char>, b: Seq<char>, c: Seq<char>)
    requires
        seq_lt(a, b),
        seq_lt(b, c),
    ensures
        seq_lt(a, c),
    decreases a.len(),
{
    if a.len() > 0 && b.len() > 0 && c.len() > 0 {
        if a[0] == b[0] && b[0] == c[0] {
            lemma_seq_lt_transitive(a.drop_first(), b.drop_first(), c.drop_first());
        }
    }
}

pub proof fn lemma_seq_lt_total(a: Seq<char>, b: Seq<char>)
    ensures
        a == b || seq_lt(a, b) || seq_lt(b, a),
    decreases a.len(),
{
    if a.len() > 0 && b.len() > 0 {
        if a[0] == b[0] {
            lemma_seq_lt_total(a.drop_first(), b.drop_first());
            if a.drop_first() == b.drop_first() {
                assert(a =~= seq![a[0]] + a.drop_first());
                assert(b =~= seq![b[0]] + b.drop_first());
            }
        } else {
            vstd::utf8::char_u32_cast(a[0], a[0] as u32);
            vstd::utf8::char_u32_cast(b[0], b[0] as u32);
            assert((a[0] as u32) != (b[0] as u32));
        }
    } else if a.len() == 0 && b.len() == 0 {
        assert(a =~= b);
    }
}

pub proof fn lemma_seq_lt_asymmetric(a: Seq<char>, b: Seq<char>)
    requires
        seq_lt(a, b),
    ensures
        !seq_lt(b, a),
        a != b,
{
    if seq_lt(b, a) {
        lemma_seq_lt_transitive(a, b, a);
        lemma_seq_lt_irreflexive(a);
    }
    if a == b {
        lemma_seq_lt_irreflexive(a);
    }
}

/// The three-way comparison: -1 when `a` sorts first, 0 when equal, 1 when
/// `b` sorts first.
pub open spec fn three_way(a: Seq<char>, b: Seq<char>) -> int {
    if a == b {
        0
    } else if seq_lt(a, b) {
        -1
    } else {
        1
    }
}

/// Compares two character slices.
pub fn compare_chars(a: &[char], b: &[char]) -> (r: i8)
    ensures
        r == three_way(a@, b@),
        r == 1 ==> seq_lt(b@, a@),
{
    let mut i: usize = 0;
    assert(a@.skip(0) =~= a@);
    assert(b@.skip(0) =~= b@);
    assert(a@.take(0) =~= b@.take(0));
    while i < a.len() && i < b.len() && a[i] == b[i]
        invariant
            i <= a@.len(),
            i <= b@.len(),
            a@.take(i as int) == b@.take(i as int),
            seq_lt(a@, b@) == seq_lt(a@.skip(i as int), b@.skip(i as int)),
            (a@ == b@) == (a@.skip(i as int) == b@.skip(i as int)),
        decreases a@.len() - i,
    {
        assert(a@.skip(i as int).drop_first() == a@.skip(i + 1));
        assert(b@.skip(i as int).drop_first() == b@.skip(i + 1));
        assert(a@.take(i + 1) == a@.take(i as int).push(a@[i as int]));
        assert(b@.take(i + 1) == b@.take(i as int).push(b@[i as int]));
        proof {
            let x = a@.skip(i as int);
            let y = b@.skip(i as int);
            if x.drop_first() == y.drop_first() {
                assert(x =~= seq![x[0]] + x.drop_first());
                assert(y =~= seq![y[0]] + y.drop_first());
            }
            if x == y {
                assert(x.drop_first() == y.drop_first());
            }
        }
        i += 1;
    }
    let ghost x = a@.skip(i as int);
    let ghost y = b@.skip(i as int);
    proof {
        lemma_seq_lt_total(a@, b@);
        lemma_seq_lt_irreflexive(a@);
        if seq_lt(a@, b@) {
            lemma_seq_lt_asymmetric(a@, b@);
        }
    }
    if i == a.len() && i == b.len() {
        assert(x.len() == 0 && y.len() == 0);
        assert(x =~= y);
        0
    } else if i == a.len() {
        assert(x.len() == 0 && y.len() > 0);
        -1
    } else if i == b.len() {
        assert(y.len() == 0 && x.len() > 0);
        proof {
            lemma_seq_lt_total(a@, b@);
        }
        1
    } else if (a[i] as u32) < (b[i] as u32) {
        assert(x[0] == a@[i as int] && y[0] == b@[i as int]);
        -1
    } else {
        assert(x[0] == a@[i as int] && y[0] == b@[i as int]);
        assert(x != y);
        1
    }
}

/// Compares two strings.
pub fn compare_str(a: &str, b: &str) -> (r: i8)
    ensures
        r == three_way(a@, b@),
        r == 1 ==> seq_lt(b@, a@),
{
    let x = chars_of(a);
    let y = chars_of(b);
    compare_chars(x.as_slice(), y.as_slice())
}

// ───────────────────────────── sorted sets of texts ────────────────────────

/// The texts ascend strictly.
pub open spec fn strictly_ascending(r: Seq<Seq<char>>) -> bool {
    forall|a: int, b: int| 0 <= a < b < r.len() ==> seq_lt(#[trigger] r[a], #[trigger] r[b])
}

/// `x` placed in the ascending `r`, unless it is there already.
pub open spec fn insert_sorted(r: Seq<Seq<char>>, x: Seq<char>) -> Seq<Seq<char>>
    decreases r.len(),
{
    if r.len() == 0 {
        seq![x]
    } else if r[0] == x {
        r
    } else if seq_lt(x, r[0]) {
        seq![x] + r
    } else {
        seq![r[0]] + insert_sorted(r.drop_first(), x)
    }
}

/// The distinct texts of `s` in ascending order: `s` sorted, then with
/// repeats removed.
pub open spec fn sort_dedup(s: Seq<Seq<char>>) -> Seq<Seq<char>>
    decreases s.len(),
{
    if s.len() == 0 {
        Seq::empty()
    } else {
        insert_sorted(sort_dedup(s.drop_last()), s.last())
    }
}

/// Inserting at the first place not below `x` is `insert_sorted`.
pub proof fn lemma_insert_sorted_at(r: Seq<Seq<char>>, x: Seq<char>, j: int)
    requires
        strictly_ascending(r),
        0 <= j <= r.len(),
        forall|m: int| 0 <= m < j ==> seq_lt(#[trigger] r[m], x),
        j < r.len() ==> !seq_lt(r[j], x),
    ensures
        insert_sorted(r, x) == (if j < r.len() && r[j] == x {
            r
        } else {
            r.insert(j, x)
        }),
        strictly_ascending(insert_sorted(r, x)),
    decreases r.len(),
{
    if r.len() == 0 {
        assert(r.insert(j, x) =~= seq![x]);
    } else if j == 0 {
        if r[0] != x {
            lemma_seq_lt_total(r[0], x);
            assert(r.insert(0, x) =~= seq![x] + r);
            let r2 = insert_sorted(r, x);
            assert forall|a: int, b: int| 0 <= a < b < r2.len() implies seq_lt(#[trigger] r2[a], #[trigger] r2[b]) by {
                if a == 0 && b > 1 {
                    assert(seq_lt(r[0], r[b - 1]));
                    lemma_seq_lt_transitive(x, r[0], r[b - 1]);
                } else if a > 0 {
                    assert(r2[a] == r[a - 1] && r2[b] == r[b - 1]);
                }
            }
        }
    } else {
        lemma_seq_lt_asymmetric(r[0], x);
        let t = r.drop_first();
        assert forall|a: int, b: int| 0 <= a < b < t.len() implies seq_lt(#[trigger] t[a], #[trigger] t[b]) by {
            assert(t[a] == r[a + 1] && t[b] == r[b + 1]);
        }
        assert forall|m: int| 0 <= m < j - 1 implies seq_lt(#[trigger] t[m], x) by {
            assert(t[m] == r[m + 1]);
        }
        lemma_insert_sorted_at(t, x, j - 1);
        let ti = insert_sorted(t, x);
        if j < r.len() && r[j] == x {
            assert(seq![r[0]] + t =~= r);
        } else {
            assert(seq![r[0]] + t.insert(j - 1, x) =~= r.insert(j, x));
        }
        let r2 = insert_sorted(r, x);
        assert(r2 == seq![r[0]] + ti);
        assert forall|a: int, b: int| 0 <= a < b < r2.len() implies seq_lt(#[trigger] r2[a], #[trigger] r2[b]) by {
            if a == 0 {
                assert(r2[b] == ti[b - 1]);
                if j < r.len() && r[j] == x {
                    assert(seq_lt(r[0], r[b]));
                } else if b - 1 < j - 1 {
                    assert(ti[b - 1] == t[b - 1]);
                    assert(seq_lt(r[0], r[b]));
                } else if b - 1 == j - 1 {
                } else {
                    assert(ti[b - 1] == t[b - 2]);
                    assert(seq_lt(r[0], r[b - 1]));
                }
            } else {
                assert(r2[a] == ti[a - 1] && r2[b] == ti[b - 1]);
            }
        }
    }
}

/// `insert_sorted` holds what `r` holds, and `x`.
proof fn lemma_insert_sorted_contains(r: Seq<Seq<char>>, x: Seq<char>, y: Seq<char>)
    ensures
        insert_sorted(r, x).contains(y) == (r.contains(y) || y == x),
    decreases r.len(),
{
    let t = insert_sorted(r, x);
    if r.len() == 0 {
        assert(t[0] == x);
    } else if r[0] == x {
        if y == x {
            assert(r[0] == y);
        }
    } else if seq_lt(x, r[0]) {
        assert(t[0] == x);
        if r.contains(y) {
            let i = choose|i: int| 0 <= i < r.len() && r[i] == y;
            assert(t[i + 1] == y);
        }
        if t.contains(y) && y != x {
            let i = choose|i: int| 0 <= i < t.len() && t[i] == y;
            assert(r[i - 1] == y);
        }
    } else {
        let d = r.drop_first();
        lemma_insert_sorted_contains(d, x, y);
        let u = insert_sorted(d, x);
        assert(t == seq![r[0]] + u);
        if r.contains(y) && y != r[0] {
            let i = choose|i: int| 0 <= i < r.len() && r[i] == y;
            assert(d[i - 1] == y);
            let k = choose|k: int| 0 <= k < u.len() && u[k] == y;
            assert(t[k + 1] == y);
        }
        if y == r[0] {
            assert(t[0] == y);
        }
        if y == x && y != r[0] {
            let k = choose|k: int| 0 <= k < u.len() && u[k] == y;
            assert(t[k + 1] == y);
        }
        if t.contains(y) && y != r[0] {
            let i = choose|i: int| 0 <= i < t.len() && t[i] == y;
            assert(u[i - 1] == y);
            if d.contains(y) {
                let k = choose|k: int| 0 <= k < d.len() && d[k] == y;
                assert(r[k + 1] == y);
            }
        }
        if y == r[0] {
            assert(r[0] == y);
        }
    }
}

/// `sort_dedup` holds exactly what `s` holds.
pub proof fn lemma_sort_dedup_contains(s: Seq<Seq<char>>, y: Seq<char>)
    ensures
        sort_dedup(s).contains(y) == s.contains(y),
    decreases s.len(),
{
    if s.len() > 0 {
        let p = s.drop_last();
        lemma_sort_dedup_contains(p, y);
        lemma_insert_sorted_contains(sort_dedup(p), s.last(), y);
        if p.contains(y) {
            let i = choose|i: int| 0 <= i < p.len() && p[i] == y;
            assert(s[i] == y);
        }
        if y == s.last() {
            assert(s[s.len() - 1] == y);
        }
        if s.contains(y) && y != s.last() {
            let i = choose|i: int| 0 <= i < s.len() && s[i] == y;
            assert(p[i] == y);
        }
    }
}

pub proof fn lemma_sort_dedup_ascending(s: Seq<Seq<char>>)
    ensures
        strictly_ascending(sort_dedup(s)),
    decreases s.len(),
{
    if s.len() > 0 {
        let r = sort_dedup(s.drop_last());
        lemma_sort_dedup_ascending(s.drop_last());
        lemma_insert_sorted_ascending(r, s.last());
    }
}

proof fn lemma_insert_sorted_ascending(r: Seq<Seq<char>>, x: Seq<char>)
    requires
        strictly_ascending(r),
    ensures
        strictly_ascending(insert_sorted(r, x)),
{
    let j = first_not_below(r, x);
    lemma_first_not_below(r, x);
    lemma_insert_sorted_at(r, x, j);
}

/// The first index of `r` whose text is not below `x`, or its length.
pub open spec fn first_not_below(r: Seq<Seq<char>>, x: Seq<char>) -> int
    decreases r.len(),
{
    if r.len() == 0 {
        0
    } else if !seq_lt(r[0], x) {
        0
    } else {
        1 + first_not_below(r.drop_first(), x)
    }
}

proof fn lemma_first_not_below(r: Seq<Seq<char>>, x: Seq<char>)
    ensures
        0 <= first_not_below(r, x) <= r.len(),
        forall|m: int| 0 <= m < first_not_below(r, x) ==> seq_lt(#[trigger] r[m], x),
        first_not_below(r, x) < r.len() ==> !seq_lt(r[first_not_below(r, x)], x),
    decreases r.len(),
{
    if r.len() > 0 && seq_lt(r[0], x) {
        lemma_first_not_below(r.drop_first(), x);
        assert forall|m: int| 0 <= m < first_not_below(r, x) implies seq_lt(#[trigger] r[m], x) by {
            if m > 0 {
                assert(r[m] == r.drop_first()[m - 1]);
            }
        }
    }
}

/// The distinct texts of `v` in ascending order (sort, then remove repeats).
pub fn sort_dedup_strings(v: &Vec<String>) -> (r: Vec<String>)
    ensures
        string_views(r@) == sort_dedup(string_views(v@)),
{
    let ghost sv = string_views(v@);
    let mut r: Vec<String> = Vec::new();
    let mut i: usize = 0;
    assert(sv.take(0) =~= Seq::<Seq<char>>::empty());
    assert(string_views(r@) =~= Seq::<Seq<char>>::empty());
    while i < v.len()
        invariant
            i <= v@.len(),
            sv == string_views(v@),
            string_views(r@) == sort_dedup(sv.take(i as int)),
            strictly_ascending(string_views(r@)),
        decreases v@.len() - i,
    {
        let ghost rv = string_views(r@);
        let x = &v[i];
        let mut j: usize = 0;
        while j < r.len() && compare_str(r[j].as_str(), x.as_str()) < 0
            invariant
                j <= r@.len(),
                rv == string_views(r@),
                forall|m: int| 0 <= m < j ==> seq_lt(#[trigger] rv[m], x@),
            decreases r@.len() - j,
        {
            proof {
                lemma_seq_lt_total(rv[j as int], x@);
            }
            j += 1;
        }
        let c: i8 = if j < r.len() {
            compare_str(r[j].as_str(), x.as_str())
        } else {
            1
        };
        proof {
            if j < r.len() {
                lemma_seq_lt_irreflexive(x@);
                if c == 1 {
                    lemma_seq_lt_asymmetric(x@, rv[j as int]);
                }
            }
            lemma_insert_sorted_at(rv, x@, j as int);
            assert(sv.take(i + 1).drop_last() =~= sv.take(i as int));
            assert(sv.take(i + 1).last() == x@);
        }
        if c != 0 {
            let ghost old_r = r@;
            r.insert(j, x.clone());
            assert(string_views(r@) =~= rv.insert(j as int, x@));
        }
        i += 1;
    }
    assert(sv.take(v@.len() as int) =~= sv);
    r
}

} // verus!
