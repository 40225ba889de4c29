//! Stable ordering of scored applications: higher score first, then by lowercase
//! name in `String` order (code point order, which UTF-8 byte order preserves).
use vstd::prelude::*;

use crate::desktop::{AppEntry, AppView};
use crate::text::lowercase;

verus! {

// ---------------------------------------------------------------- text order
/// `String` order on character sequences: lexicographic by code point, a proper
/// prefix first.
pub open spec fn lex_lt(a: Seq<char>, b: Seq<char>) -> bool
    decreases a.len(),
{
    if a.len() == 0 {
        b.len() > 0
    } else if b.len() == 0 {
        false
    } else if a[0] != b[0] {
        a[0] < b[0]
    } else {
        lex_lt(a.drop_first(), b.drop_first())
    }
}

pub proof fn lemma_lex_irreflexive(a: Seq<char>)
    ensures
        !lex_lt(a, a),
    decreases a.len(),
{
    if a.len() > 0 {
        lemma_lex_irreflexive(a.drop_first());
    }
}

pub proof fn lemma_lex_transitive(a: Seq<char>, b: Seq<char>, c: Seq<char>)
    requires
        lex_lt(a, b),
        lex_lt(b, c),
    ensures
        lex_lt(a, c),
    decreases a.len(),
{
    if a.len() > 0 && b.len() > 0 && c.len() > 0 {
        if a[0] == b[0] && b[0] == c[0] {
            lemma_lex_transitive(a.drop_first(), b.drop_first(), c.drop_first());
        }
    }
}

pub proof fn lemma_lex_total(a: Seq<char>, b: Seq<char>)
    requires
        a != b,
    ensures
        lex_lt(a, b) || lex_lt(b, a),
    decreases a.len(),
{
    if a.len() > 0 && b.len() > 0 {
        if a[0] == b[0] {
            if a.drop_first() == b.drop_first() {
                assert(a =~= seq![a[0]] + a.drop_first());
                assert(b =~= seq![b[0]] + b.drop_first());
            }
            lemma_lex_total(a.drop_first(), b.drop_first());
        }
    } else if a.len() == 0 && b.len() == 0 {
        assert(a =~= b);
    }
}

/// Exec form of [`lex_lt`].
pub fn lex_less(a: &[char], b: &[char]) -> (r: bool)
    ensures
        r == lex_lt(a@, b@),
{
    let mut i: usize = 0;
    assert(a@.skip(0) =~= a@);
    assert(b@.skip(0) =~= b@);
    while i < a.len() && i < b.len()
        invariant
            i <= a.len(),
            i <= b.len(),
            lex_lt(a@.skip(i as int), b@.skip(i as int)) == lex_lt(a@, b@),
        decreases a.len() - i,
    {
        if a[i] != b[i] {
            assert(a@.skip(i as int)[0] == a@[i as int]);
            assert(b@.skip(i as int)[0] == b@[i as int]);
            return a[i] < b[i];
        }
        assert(a@.skip(i as int).drop_first() =~= a@.skip(i + 1));
        assert(b@.skip(i as int).drop_first() =~= b@.skip(i + 1));
        i += 1;
    }
    i == a.len() && i < b.len()
}

// ---------------------------------------------------------------- rank order
/// The sort key of a scored application.
pub open spec fn name_key(x: (i32, AppView)) -> Seq<char> {
    lowercase(x.1.name)
}

/// `x` goes strictly before `y`: higher score, or equal score and smaller lowercase name.
pub open spec fn goes_before(x: (i32, AppView), y: (i32, AppView)) -> bool {
    x.0 > y.0 || (x.0 == y.0 && lex_lt(name_key(x), name_key(y)))
}

/// Sorted: no element goes strictly before an earlier one.
pub open spec fn rank_sorted(s: Seq<(i32, AppView)>) -> bool {
    forall|i: int, j: int| 0 <= i < j < s.len() ==> !goes_before(#[trigger] s[j], #[trigger] s[i])
}

/// `x` has score `sc` and lowercase name `k`.
pub open spec fn has_key(x: (i32, AppView), sc: i32, k: Seq<char>) -> bool {
    x.0 == sc && name_key(x) == k
}

/// The elements of `s` with score `sc` and lowercase name `k`, in order.
pub open spec fn select(s: Seq<(i32, AppView)>, sc: i32, k: Seq<char>) -> Seq<(i32, AppView)>
    decreases s.len(),
{
    if s.len() == 0 {
        s
    } else if has_key(s.last(), sc, k) {
        select(s.drop_last(), sc, k).push(s.last())
    } else {
        select(s.drop_last(), sc, k)
    }
}

/// `r` is the stable sort of `s` by rank: sorted, and each group of equal keys keeps
/// its elements in their input order (which also makes `r` a permutation of `s`).
pub open spec fn stable_sort_of(r: Seq<(i32, AppView)>, s: Seq<(i32, AppView)>) -> bool {
    &&& rank_sorted(r)
    &&& forall|sc: i32, k: Seq<char>| #[trigger] select(r, sc, k) == select(s, sc, k)
}

proof fn lemma_before_irreflexive(x: (i32, AppView), y: (i32, AppView))
    requires
        goes_before(x, y),
    ensures
        !goes_before(y, x),
        !(x.0 == y.0 && name_key(x) == name_key(y)),
{
    if x.0 == y.0 {
        lemma_lex_irreflexive(name_key(x));
        if lex_lt(name_key(y), name_key(x)) {
            lemma_lex_transitive(name_key(x), name_key(y), name_key(x));
        }
    }
}

/// Not-before is transitive.
proof fn lemma_not_before_transitive(a: (i32, AppView), b: (i32, AppView), c: (i32, AppView))
    requires
        !goes_before(a, b),
        !goes_before(b, c),
    ensures
        !goes_before(a, c),
{
    if goes_before(a, c) {
        if b.0 == a.0 && name_key(b) == name_key(a) {
        } else if goes_before(b, a) {
            if a.0 == b.0 && b.0 == c.0 {
                lemma_lex_transitive(name_key(b), name_key(a), name_key(c));
            }
        } else {
            if a.0 == b.0 {
                lemma_lex_total(name_key(a), name_key(b));
            }
        }
    }
}

proof fn lemma_insert_sorted(s: Seq<(i32, AppView)>, p: int, x: (i32, AppView))
    requires
        rank_sorted(s),
        0 <= p <= s.len(),
        forall|j: int| p <= j < s.len() ==> goes_before(x, #[trigger] s[j]),
        p > 0 ==> !goes_before(x, s[p - 1]),
    ensures
        rank_sorted(s.insert(p, x)),
{
    let t = s.insert(p, x);
    assert forall|i: int, j: int| 0 <= i < j < t.len() implies !goes_before(
        #[trigger] t[j],
        #[trigger] t[i],
    ) by {
        if i == p {
            assert(t[j] == s[j - 1]);
            lemma_before_irreflexive(x, s[j - 1]);
        } else if j == p {
            assert(t[i] == s[i]);
            if i < p - 1 {
                assert(!goes_before(s[p - 1], s[i]));
                lemma_not_before_transitive(x, s[p - 1], s[i]);
            }
        } else if i < p && j < p {
            assert(t[i] == s[i] && t[j] == s[j]);
        } else if i < p {
            assert(t[i] == s[i] && t[j] == s[j - 1]);
        } else {
            assert(t[i] == s[i - 1] && t[j] == s[j - 1]);
        }
    }
}

proof fn lemma_select_insert(s: Seq<(i32, AppView)>, p: int, x: (i32, AppView), sc: i32, k: Seq<char>)
    requires
        0 <= p <= s.len(),
        forall|j: int| p <= j < s.len() ==> goes_before(x, #[trigger] s[j]),
    ensures
        select(s.insert(p, x), sc, k) == if has_key(x, sc, k) {
            select(s, sc, k).push(x)
        } else {
            select(s, sc, k)
        },
    decreases s.len() - p,
{
    let t = s.insert(p, x);
    if p == s.len() {
        assert(t.drop_last() =~= s);
        assert(t.last() == x);
    } else {
        let s2 = s.drop_last();
        lemma_select_insert(s2, p, x, sc, k);
        assert(t.drop_last() =~= s2.insert(p, x));
        assert(t.last() == s.last());
        lemma_before_irreflexive(x, s.last());
    }
}


proof fn lemma_count_select(s: Seq<(i32, AppView)>, x: (i32, AppView))
    ensures
        s.to_multiset().count(x) == select(s, x.0, name_key(x)).to_multiset().count(x),
    decreases s.len(),
{
    broadcast use vstd::seq_lib::group_to_multiset_ensures;

    if s.len() > 0 {
        let p = s.drop_last();
        lemma_count_select(p, x);
        assert(s =~= p.push(s.last()));
        let sp = select(p, x.0, name_key(x));
        if has_key(s.last(), x.0, name_key(x)) {
            assert(select(s, x.0, name_key(x)) == sp.push(s.last()));
        }
    } else {
        assert(select(s, x.0, name_key(x)) =~= s);
    }
}

/// An element found at two positions is counted at least twice.
pub proof fn lemma_count_two_positions(s: Seq<(i32, AppView)>, i: int, j: int)
    requires
        0 <= i < j < s.len(),
        s[i] == s[j],
    ensures
        s.to_multiset().count(s[i]) >= 2,
    decreases s.len(),
{
    broadcast use vstd::seq_lib::group_to_multiset_ensures;

    let p = s.drop_last();
    assert(s =~= p.push(s.last()));
    assert(p[i] == s[i]);
    if j < s.len() - 1 {
        lemma_count_two_positions(p, i, j);
    } else {
        assert(p.contains(s[i]));
    }
}

/// In a sequence without repeated elements every element is counted at most once.
pub proof fn lemma_count_distinct(s: Seq<(i32, AppView)>, x: (i32, AppView))
    requires
        forall|i: int, j: int| 0 <= i < j < s.len() ==> s[i] != s[j],
    ensures
        s.to_multiset().count(x) <= 1,
    decreases s.len(),
{
    broadcast use vstd::seq_lib::group_to_multiset_ensures;

    if s.len() > 0 {
        let p = s.drop_last();
        assert(s =~= p.push(s.last()));
        assert forall|i: int, j: int| 0 <= i < j < p.len() implies p[i] != p[j] by {
            assert(p[i] == s[i] && p[j] == s[j]);
        }
        lemma_count_distinct(p, x);
        if s.last() == x && p.contains(x) {
            let i = choose|i: int| 0 <= i < p.len() && p[i] == x;
            assert(s[i] == s[s.len() - 1]);
        }
    }
}

/// A stable sort rearranges its input: every element occurs as often in the
/// result as in the input, so the lengths and the members are the same.
pub proof fn law_stable_sort_permutes(r: Seq<(i32, AppView)>, s: Seq<(i32, AppView)>)
    requires
        stable_sort_of(r, s),
    ensures
        r.to_multiset() == s.to_multiset(),
        r.len() == s.len(),
        forall|x: (i32, AppView)| r.contains(x) <==> s.contains(x),
{
    broadcast use vstd::seq_lib::group_to_multiset_ensures;

    assert forall|x: (i32, AppView)| r.to_multiset().count(x) == s.to_multiset().count(x) by {
        lemma_count_select(r, x);
        lemma_count_select(s, x);
        assert(select(r, x.0, name_key(x)) == select(s, x.0, name_key(x)));
    }
    assert(r.to_multiset() =~= s.to_multiset());
    r.to_multiset_ensures();
    s.to_multiset_ensures();
    assert(r.len() == r.to_multiset().len());
    assert(s.len() == s.to_multiset().len());
    assert forall|x: (i32, AppView)| r.contains(x) <==> s.contains(x) by {
        assert(r.contains(x) <==> r.to_multiset().count(x) > 0);
        assert(s.contains(x) <==> s.to_multiset().count(x) > 0);
    }
}

/// Exec forms of the sort key.
pub open spec fn keyed_view(t: (i32, Vec<char>, AppEntry)) -> (i32, AppView) {
    (t.0, t.2@)
}

pub open spec fn keyed_ok(t: (i32, Vec<char>, AppEntry)) -> bool {
    t.1@ == lowercase(t.2@.name)
}

pub open spec fn keyed_views(s: Seq<(i32, Vec<char>, AppEntry)>) -> Seq<(i32, AppView)> {
    s.map_values(|t: (i32, Vec<char>, AppEntry)| keyed_view(t))
}

pub open spec fn pair_views(s: Seq<(i32, AppEntry)>) -> Seq<(i32, AppView)> {
    s.map_values(|p: (i32, AppEntry)| (p.0, p.1@))
}

fn before_exec(x: &(i32, Vec<char>, AppEntry), y: &(i32, Vec<char>, AppEntry)) -> (r: bool)
    requires
        keyed_ok(*x),
        keyed_ok(*y),
    ensures
        r == goes_before(keyed_view(*x), keyed_view(*y)),
{
    x.0 > y.0 || (x.0 == y.0 && lex_less(x.1.as_slice(), y.1.as_slice()))
}

/// Stable sort by rank of `(score, lowercase name, app)` triples.
pub fn sort_by_rank(items: Vec<(i32, Vec<char>, AppEntry)>) -> (r: Vec<(i32, AppEntry)>)
    requires
        forall|i: int| 0 <= i < items.len() ==> keyed_ok(#[trigger] items@[i]),
    ensures
        stable_sort_of(pair_views(r@), keyed_views(items@)),
{
    let mut sorted: Vec<(i32, Vec<char>, AppEntry)> = Vec::new();
    let mut items = items;
    let ghost orig = items@;
    let mut i: usize = 0;
    let n = items.len();
    let mut rest: Vec<(i32, Vec<char>, AppEntry)> = Vec::new();
    // Move the items out in order.
    while items.len() > 0
        invariant
            items@ + rest@.reverse() == orig,
        decreases items.len(),
    {
        let ghost before_items = items@;
        let x = items.pop().unwrap();
        let ghost before_rest = rest@;
        rest.push(x);
        proof {
            assert(rest@.reverse() =~= seq![x] + before_rest.reverse());
            assert(before_items =~= items@.push(x));
            assert(items@ + rest@.reverse() =~= before_items + before_rest.reverse());
        }
    }
    assert(rest@.reverse() =~= orig);
    while rest.len() > 0
        invariant
            i + rest.len() == n,
            n == orig.len(),
            rest@.reverse() == orig.skip(i as int),
            forall|j: int| 0 <= j < orig.len() ==> keyed_ok(#[trigger] orig[j]),
            forall|j: int| 0 <= j < sorted.len() ==> keyed_ok(#[trigger] sorted@[j]),
            rank_sorted(keyed_views(sorted@)),
            forall|sc: i32, k: Seq<char>| #[trigger] select(keyed_views(sorted@), sc, k) == select(
                keyed_views(orig.take(i as int)),
                sc,
                k,
            ),
        decreases rest.len(),
    {
        let x = rest.pop().unwrap();
        proof {
            assert(orig.skip(i as int)[0] == x);
            assert(orig[i as int] == x);
        }
        let mut p = sorted.len();
        while p > 0 && before_exec(&x, &sorted[p - 1])
            invariant
                p <= sorted.len(),
                keyed_ok(x),
                forall|j: int| 0 <= j < sorted.len() ==> keyed_ok(#[trigger] sorted@[j]),
                forall|j: int|
                    p <= j < sorted.len() ==> goes_before(
                        keyed_view(x),
                        #[trigger] keyed_views(sorted@)[j],
                    ),
            decreases p,
        {
            p -= 1;
        }
        let ghost old_sorted = sorted@;
        proof {
            lemma_insert_sorted(keyed_views(old_sorted), p as int, keyed_view(x));
            assert forall|sc: i32, k: Seq<char>| true implies #[trigger] select(
                keyed_views(old_sorted).insert(p as int, keyed_view(x)),
                sc,
                k,
            ) == select(keyed_views(orig.take(i + 1)), sc, k) by {
                lemma_select_insert(keyed_views(old_sorted), p as int, keyed_view(x), sc, k);
                assert(keyed_views(orig.take(i + 1)).drop_last() =~= keyed_views(
                    orig.take(i as int),
                ));
                assert(keyed_views(orig.take(i + 1)).last() == keyed_view(x));
            }
        }
        sorted.insert(p, x);
        proof {
            assert(keyed_views(sorted@) =~= keyed_views(old_sorted).insert(
                p as int,
                keyed_view(x),
            ));
            assert(orig.skip(i + 1) =~= orig.skip(i as int).drop_first());
            assert(rest@.reverse() =~= orig.skip(i + 1));
            assert forall|j: int| 0 <= j < sorted.len() implies keyed_ok(#[trigger] sorted@[j]) by {
                if j < p {
                    assert(sorted@[j] == old_sorted[j]);
                } else if j > p {
                    assert(sorted@[j] == old_sorted[j - 1]);
                }
            }
        }
        i += 1;
    }
    assert(orig.take(n as int) =~= orig);
    let mut out: Vec<(i32, AppEntry)> = Vec::new();
    let mut j: usize = 0;
    while j < sorted.len()
        invariant
            j <= sorted.len(),
            pair_views(out@) =~= keyed_views(sorted@).take(j as int),
        decreases sorted.len() - j,
    {
        let a = sorted[j].2.clone();
        let ghost before = out@;
        out.push((sorted[j].0, a));
        proof {
            assert(out@ == before.push((sorted@[j as int].0, a)));
            assert(pair_views(out@) =~= pair_views(before).push(keyed_view(sorted@[j as int])));
            assert(keyed_views(sorted@).take(j + 1) =~= keyed_views(sorted@).take(j as int).push(
                keyed_view(sorted@[j as int]),
            ));
        }
        j += 1;
    }
    assert(keyed_views(sorted@).take(sorted.len() as int) =~= keyed_views(sorted@));
    out
}

} // verus!
