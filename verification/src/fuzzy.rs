//! Fuzzy matching and ranking of applications, with the recents bonus.
use vstd::prelude::*;

use crate::desktop::{haystack_of, AppEntry, AppView};
use crate::recents::{bonus_in_range, bonus_value, now_secs, Recents};
use crate::sorting::{keyed_ok, keyed_views, pair_views, sort_by_rank, stable_sort_of};
use crate::text::{
    chars_of, contains, find_chars, find_from, occurs_at, has_prefix, has_substring, is_whitespace, is_ws,
    lowercase, starts_with, string_of_range, to_lower, trim, trim_bounds, utf8_len, utf8_len_of,
    utf8_len_of_prefix,
};

verus! {

// ---------------------------------------------------------------- tokens and subsequences
/// `q[i..j]` is one of the words `str::split_whitespace` yields: a maximal run of
/// non-whitespace characters.
pub open spec fn is_token(q: Seq<char>, i: int, j: int) -> bool {
    &&& 0 <= i < j <= q.len()
    &&& forall|k: int| i <= k < j ==> !is_ws(#[trigger] q[k])
    &&& (i == 0 || is_ws(q[i - 1]))
    &&& (j == q.len() || is_ws(q[j]))
}

/// Every whitespace-separated word of `q` occurs in `h`.
pub open spec fn all_tokens_in(q: Seq<char>, h: Seq<char>) -> bool {
    forall|i: int, j: int| is_token(q, i, j) ==> contains(h, #[trigger] q.subrange(i, j))
}

/// The characters of `q` appear in `h` in order (greedy scan of `h`).
pub open spec fn is_subseq(q: Seq<char>, h: Seq<char>) -> bool
    decreases h.len(),
{
    if q.len() == 0 {
        true
    } else if h.len() == 0 {
        false
    } else if h[0] == q[0] {
        is_subseq(q.drop_first(), h.drop_first())
    } else {
        is_subseq(q, h.drop_first())
    }
}

proof fn lemma_token_end_unique(q: Seq<char>, i: int, j1: int, j2: int)
    requires
        is_token(q, i, j1),
        is_token(q, i, j2),
    ensures
        j1 == j2,
{
    if j1 < j2 {
        assert(!is_ws(q[j1]));
    } else if j2 < j1 {
        assert(!is_ws(q[j2]));
    }
}

/// Whether every whitespace-separated word of `q` occurs in `h`.
fn tokens_all_in(q: &[char], h: &[char]) -> (r: bool)
    ensures
        r == all_tokens_in(q@, h@),
{
    let mut i: usize = 0;
    while i < q.len()
        invariant
            i <= q.len(),
            i == 0 || is_ws(q@[i as int]) || i == q.len(),
            forall|a: int, b: int| is_token(q@, a, b) && a < i ==> contains(h@, #[trigger] q@.subrange(a, b)),
        ensures
            forall|a: int, b: int| is_token(q@, a, b) ==> contains(h@, #[trigger] q@.subrange(a, b)),
        decreases q.len() - i,
    {
        let ghost i0 = i;
        while i < q.len() && is_whitespace(q[i])
            invariant
                i0 <= i <= q.len(),
                forall|k: int| i0 <= k < i ==> is_ws(#[trigger] q@[k]),
            decreases q.len() - i,
        {
            i += 1;
        }
        if i == q.len() {
            proof {
                assert forall|a: int, b: int| is_token(q@, a, b) && a < i implies contains(
                    h@,
                    #[trigger] q@.subrange(a, b),
                ) by {
                    if a >= i0 {
                        assert(is_ws(q@[a]));
                    }
                }
            }
            break;
        }
        let start = i;
        let mut tok: Vec<char> = Vec::new();
        while i < q.len() && !is_whitespace(q[i])
            invariant
                start <= i <= q.len(),
                tok@ == q@.subrange(start as int, i as int),
                forall|k: int| start <= k < i ==> !is_ws(#[trigger] q@[k]),
            decreases q.len() - i,
        {
            tok.push(q[i]);
            i += 1;
            assert(tok@ == q@.subrange(start as int, i as int));
        }
        proof {
            assert(start == 0 || is_ws(q@[start - 1])) by {
                if start > i0 {
                    assert(is_ws(q@[start - 1]));
                } else if start > 0 {
                    assert(i0 == start);
                }
            }
            assert(is_token(q@, start as int, i as int));
        }
        if !has_substring(h, tok.as_slice()) {
            return false;
        }
        proof {
            assert forall|a: int, b: int| is_token(q@, a, b) && a < i implies contains(
                h@,
                #[trigger] q@.subrange(a, b),
            ) by {
                if a >= i0 && a < start {
                    assert(is_ws(q@[a]));
                } else if a > start && a < i {
                    assert(!is_ws(q@[a - 1]));
                } else if a == start {
                    lemma_token_end_unique(q@, a, b, i as int);
                }
            }
        }
    }
    true
}

/// Whether the characters of `q` appear in `h` in order.
fn subsequence(q: &[char], h: &[char]) -> (r: bool)
    ensures
        r == is_subseq(q@, h@),
{
    let mut i: usize = 0;
    let mut j: usize = 0;
    assert(q@.skip(0) =~= q@);
    assert(h@.skip(0) =~= h@);
    while j < h.len() && i < q.len()
        invariant
            i <= q.len(),
            j <= h.len(),
            is_subseq(q@.skip(i as int), h@.skip(j as int)) == is_subseq(q@, h@),
        decreases h.len() - j,
    {
        assert(h@.skip(j as int)[0] == h@[j as int]);
        assert(h@.skip(j as int).drop_first() =~= h@.skip(j + 1));
        if i < q.len() {
            assert(q@.skip(i as int)[0] == q@[i as int]);
            assert(q@.skip(i as int).drop_first() =~= q@.skip(i + 1));
        }
        if h[j] == q[i] {
            i += 1;
        }
        j += 1;
    }
    i == q.len()
}

// ---------------------------------------------------------------- score
/// The query as matched: trimmed, lowercased.
pub open spec fn query_key(q: Seq<char>) -> Seq<char> {
    lowercase(trim(q))
}

/// How well `query` matches `app` (higher is better; `None` = no match), before
/// the conversion to `i32`: empty query 0; lowercase name starting with the query
/// `1000 - name bytes`; containing it `800 - byte offset`; every query word in the
/// haystack 500; query characters in order in the haystack `200 - haystack bytes`.
pub open spec fn score_of(query: Seq<char>, app: AppView) -> Option<int> {
    let q = query_key(query);
    let name = lowercase(app.name);
    let h = haystack_of(app);
    if q.len() == 0 {
        Some(0)
    } else if starts_with(name, q) {
        Some(1000 - utf8_len(name))
    } else if find_from(name, q, 0) is Some {
        Some(800 - utf8_len(name.take(find_from(name, q, 0)->0)))
    } else if all_tokens_in(q, h) {
        Some(500)
    } else if is_subseq(q, h) {
        Some(200 - utf8_len(h))
    } else {
        None
    }
}

/// The byte length the matching branch subtracts fits in `i32`.
pub open spec fn score_in_range(query: Seq<char>, app: AppView) -> bool {
    let q = query_key(query);
    let name = lowercase(app.name);
    let h = haystack_of(app);
    if q.len() == 0 {
        true
    } else if starts_with(name, q) {
        utf8_len(name) <= i32::MAX
    } else if find_from(name, q, 0) is Some {
        utf8_len(name.take(find_from(name, q, 0)->0)) <= i32::MAX
    } else if all_tokens_in(q, h) {
        true
    } else if is_subseq(q, h) {
        utf8_len(h) <= i32::MAX
    } else {
        true
    }
}

/// Score with a flag for byte lengths beyond `i32`: `None` when the matching
/// branch's length does not fit.
fn score_checked(query: &str, app: &AppEntry) -> (r: Option<Option<i32>>)
    ensures
        r is Some <==> score_in_range(query@, app@),
        r matches Some(s) ==> (s is Some <==> score_of(query@, app@) is Some) && (s matches Some(
            v,
        ) ==> score_of(query@, app@) == Some(v as int)),
{
    let qv = chars_of(query);
    let (a, b) = trim_bounds(qv.as_slice());
    let qt = string_of_range(qv.as_slice(), a, b);
    let ql = to_lower(qt.as_str());
    let q = chars_of(ql.as_str());
    if q.len() == 0 {
        return Some(Some(0));
    }
    let nl = to_lower(app.name.as_str());
    let name = chars_of(nl.as_str());
    let hs = app.haystack();
    let h = chars_of(hs.as_str());
    if has_prefix(name.as_slice(), q.as_slice()) {
        return match utf8_len_of(name.as_slice()) {
            Some(l) => if l <= 2147483647 {
                Some(Some(1000 - l as i32))
            } else {
                None
            },
            None => None,
        };
    }
    if let Some(pos) = find_chars(name.as_slice(), q.as_slice()) {
        proof {
            crate::text::lemma_find_from(name@, q@, 0);
        }
        return match utf8_len_of_prefix(name.as_slice(), pos) {
            Some(l) => if l <= 2147483647 {
                Some(Some(800 - l as i32))
            } else {
                None
            },
            None => None,
        };
    }
    if tokens_all_in(q.as_slice(), h.as_slice()) {
        return Some(Some(500));
    }
    if subsequence(q.as_slice(), h.as_slice()) {
        return match utf8_len_of(h.as_slice()) {
            Some(l) => if l <= 2147483647 {
                Some(Some(200 - l as i32))
            } else {
                None
            },
            None => None,
        };
    }
    Some(None)
}

/// Score how well `query` matches `app`. Higher is better; `None` = no match.
pub fn score(query: &str, app: &AppEntry) -> (r: Option<i32>)
    requires
        score_in_range(query@, app@),
    ensures
        r is Some <==> score_of(query@, app@) is Some,
        r matches Some(v) ==> score_of(query@, app@) == Some(v as int),
{
    score_checked(query, app).unwrap()
}

/// [`score`], or `None` when a byte length the score subtracts exceeds `i32`.
pub fn try_score(query: &str, app: &AppEntry) -> (r: Option<Option<i32>>)
    ensures
        r is Some <==> score_in_range(query@, app@),
        r matches Some(s) ==> (s is Some <==> score_of(query@, app@) is Some) && (s matches Some(
            v,
        ) ==> score_of(query@, app@) == Some(v as int)),
{
    if let Some(s) = score_checked(query, app) {
        Some(score(query, app))
    } else {
        None
    }
}

// ---------------------------------------------------------------- rank
/// The views of a list of applications.
pub open spec fn app_views(apps: Seq<AppEntry>) -> Seq<AppView> {
    apps.map_values(|a: AppEntry| a@)
}

/// Matching applications in input order, each with score plus recents bonus at `now`.
pub open spec fn scored(query: Seq<char>, apps: Seq<AppView>, m: Map<Seq<char>, crate::recents::RecentEntry>, now: u64) -> Seq<(i32, AppView)>
    decreases apps.len(),
{
    if apps.len() == 0 {
        seq![]
    } else {
        let prev = scored(query, apps.drop_last(), m, now);
        let a = apps.last();
        match score_of(query, a) {
            Some(s) => prev.push(((s + bonus_value(m, a.desktop_id, now)) as i32, a)),
            None => prev,
        }
    }
}

/// The application can be scored and, when it matches, its bonus at `now` and
/// score plus bonus can be computed in `i32`.
pub open spec fn entry_in_range(query: Seq<char>, a: AppView, m: Map<Seq<char>, crate::recents::RecentEntry>, now: u64) -> bool {
    &&& score_in_range(query, a)
    &&& score_of(query, a) is Some ==> bonus_in_range(m, a.desktop_id) && score_of(query, a)->0
        + bonus_value(m, a.desktop_id, now) >= i32::MIN
}

/// Every application can be ranked at `now` without leaving `i32`.
pub open spec fn rank_in_range(query: Seq<char>, apps: Seq<AppView>, m: Map<Seq<char>, crate::recents::RecentEntry>, now: u64) -> bool {
    forall|i: int| 0 <= i < apps.len() ==> entry_in_range(query, #[trigger] apps[i], m, now)
}

proof fn lemma_score_bounds(query: Seq<char>, a: AppView)
    requires
        score_in_range(query, a),
        score_of(query, a) is Some,
    ensures
        i32::MIN + 200 <= score_of(query, a)->0 <= 1000,
{
    let q = query_key(query);
    let name = lowercase(a.name);
    if q.len() > 0 && !starts_with(name, q) && find_from(name, q, 0) is Some {
        crate::text::lemma_find_from(name, q, 0);
        crate::text::lemma_utf8_len_take(name, find_from(name, q, 0)->0);
    }
}

/// Scored triples for sorting; `None` when some length or count is out of range.
fn scored_items(query: &str, apps: &[AppEntry], recents: &Recents, now: u64) -> (r: Option<Vec<(i32, Vec<char>, AppEntry)>>)
    ensures
        r is Some <==> rank_in_range(query@, app_views(apps@), recents@, now),
        r matches Some(v) ==> keyed_views(v@) == scored(query@, app_views(apps@), recents@, now)
            && forall|i: int| 0 <= i < v.len() ==> keyed_ok(#[trigger] v@[i]),
{
    let mut out: Vec<(i32, Vec<char>, AppEntry)> = Vec::new();
    let mut i: usize = 0;
    while i < apps.len()
        invariant
            i <= apps.len(),
            keyed_views(out@) == scored(query@, app_views(apps@).take(i as int), recents@, now),
            forall|j: int| 0 <= j < out.len() ==> keyed_ok(#[trigger] out@[j]),
            rank_in_range(query@, app_views(apps@).take(i as int), recents@, now),
        decreases apps.len() - i,
    {
        let app = &apps[i];
        let ghost av = app_views(apps@);
        assert(av.take(i + 1).drop_last() =~= av.take(i as int));
        assert(av.take(i + 1).last() == app@);
        let s = match score_checked(query, app) {
            Some(s) => s,
            None => {
                proof {
                    assert(!score_in_range(query@, av[i as int]));
                }
                return None;
            },
        };
        if let Some(v) = s {
            let e = recents.get(app.desktop_id.as_str());
            if let Some(e) = e {
                if e.count > 107374182 && e.count < 4187593114 {
                    proof {
                        assert(!bonus_in_range(recents@, av[i as int].desktop_id));
                    }
                    return None;
                }
            }
            let bonus = recents.bonus_at(app.desktop_id.as_str(), now);
            proof {
                lemma_score_bounds(query@, app@);
                crate::recents::lemma_bonus_bounds(recents@, app@.desktop_id, now);
            }
            if bonus < 0 && v < i32::MIN - bonus {
                proof {
                    assert(!entry_in_range(query@, av[i as int], recents@, now));
                }
                return None;
            }
            let nl = to_lower(app.name.as_str());
            let key = chars_of(nl.as_str());
            let ghost before = out@;
            out.push((v + bonus, key, app.clone()));
            proof {
                assert(keyed_views(out@) =~= keyed_views(before).push(((v + bonus) as i32, app@)));
            }
        }
        proof {
            assert forall|j: int| 0 <= j < av.take(i + 1).len() implies entry_in_range(
                query@,
                #[trigger] av.take(i + 1)[j],
                recents@,
                now,
            ) by {
                if j < i {
                    assert(av.take(i + 1)[j] == av.take(i as int)[j]);
                }
            }
        }
        i += 1;
    }
    assert(app_views(apps@).take(apps.len() as int) =~= app_views(apps@));
    Some(out)
}

/// Filter and sort apps by fuzzy score + recents bonus at time `now` (descending),
/// then by lowercase name; ties keep the input order.
pub fn rank_at(query: &str, apps: &[AppEntry], recents: &Recents, now: u64) -> (r: Vec<(i32, AppEntry)>)
    requires
        rank_in_range(query@, app_views(apps@), recents@, now),
    ensures
        stable_sort_of(pair_views(r@), scored(query@, app_views(apps@), recents@, now)),
{
    let items = scored_items(query, apps, recents, now).unwrap();
    sort_by_rank(items)
}

/// Filter and sort apps by fuzzy score + recents bonus (descending), then name.
/// Empty query prefers recents at the top. The clock is read once for the ranking.
pub fn rank(query: &str, apps: &[AppEntry], recents: &Recents) -> (r: Vec<(i32, AppEntry)>)
    requires
        forall|t: u64| rank_in_range(query@, app_views(apps@), recents@, t),
    ensures
        exists|t: u64| stable_sort_of(pair_views(r@), scored(query@, app_views(apps@), recents@, t)),
{
    let now = now_secs();
    rank_at(query, apps, recents, now)
}

/// [`rank_at`], or `None` when some score length or launch count is out of range.
pub fn try_rank_at(query: &str, apps: &[AppEntry], recents: &Recents, now: u64) -> (r: Option<Vec<(i32, AppEntry)>>)
    ensures
        r is Some <==> rank_in_range(query@, app_views(apps@), recents@, now),
        r matches Some(v) ==> stable_sort_of(pair_views(v@), scored(query@, app_views(apps@), recents@, now)),
{
    match scored_items(query, apps, recents, now) {
        Some(items) => Some(sort_by_rank(items)),
        None => None,
    }
}

/// [`rank`], or `None` when some score length or launch count is out of range.
pub fn try_rank(query: &str, apps: &[AppEntry], recents: &Recents) -> (r: Option<Vec<(i32, AppEntry)>>)
    ensures
        exists|t: u64|
            (r is Some <==> #[trigger] rank_in_range(query@, app_views(apps@), recents@, t)) && (r matches Some(v)
                ==> stable_sort_of(pair_views(v@), scored(query@, app_views(apps@), recents@, t))),
{
    let now = now_secs();
    let r = try_rank_at(query, apps, recents, now);
    assert(r is Some <==> rank_in_range(query@, app_views(apps@), recents@, now));
    r
}

// ---------------------------------------------------------------- laws
proof fn lemma_scored_members(query: Seq<char>, apps: Seq<AppView>, m: Map<Seq<char>, crate::recents::RecentEntry>, now: u64)
    ensures
        forall|x: (i32, AppView)| #[trigger] scored(query, apps, m, now).contains(x) ==> apps.contains(x.1) && score_of(query, x.1) is Some,
        forall|a: AppView| #[trigger] apps.contains(a) && score_of(query, a) is Some ==> exists|v: i32| scored(query, apps, m, now).contains((v, a)),
    decreases apps.len(),
{
    if apps.len() > 0 {
        let p = apps.drop_last();
        lemma_scored_members(query, p, m, now);
        let prev = scored(query, p, m, now);
        let l = apps.last();
        assert forall|x: (i32, AppView)| #[trigger] scored(query, apps, m, now).contains(x) implies apps.contains(x.1) && score_of(query, x.1) is Some by {
            if prev.contains(x) {
                let i = choose|i: int| 0 <= i < p.len() && p[i] == x.1;
                assert(apps[i] == x.1);
            } else {
                let j = choose|j: int| 0 <= j < scored(query, apps, m, now).len() && scored(query, apps, m, now)[j] == x;
                assert(j == prev.len());
                assert(apps[apps.len() - 1] == l);
            }
        }
        assert forall|a: AppView| #[trigger] apps.contains(a) && score_of(query, a) is Some implies exists|v: i32| scored(query, apps, m, now).contains((v, a)) by {
            let i = choose|i: int| 0 <= i < apps.len() && apps[i] == a;
            if i < apps.len() - 1 {
                assert(p[i] == a);
                assert(p.contains(a));
                let v = choose|v: i32| prev.contains((v, a));
                let j = choose|j: int| 0 <= j < prev.len() && prev[j] == (v, a);
                assert(scored(query, apps, m, now)[j] == (v, a));
                assert(scored(query, apps, m, now).contains((v, a)));
            } else {
                let v = (score_of(query, a)->0 + bonus_value(m, a.desktop_id, now)) as i32;
                assert(scored(query, apps, m, now)[prev.len() as int] == (v, a));
                assert(scored(query, apps, m, now).contains((v, a)));
            }
        }
    }
}

/// The ranking lists exactly the applications the query matches.
pub proof fn law_rank_lists_matches(
    r: Seq<(i32, AppView)>,
    query: Seq<char>,
    apps: Seq<AppView>,
    m: Map<Seq<char>, crate::recents::RecentEntry>,
    now: u64,
    a: AppView,
)
    requires
        stable_sort_of(r, scored(query, apps, m, now)),
    ensures
        (exists|v: i32| r.contains((v, a))) <==> apps.contains(a) && score_of(query, a) is Some,
{
    crate::sorting::law_stable_sort_permutes(r, scored(query, apps, m, now));
    lemma_scored_members(query, apps, m, now);
    if exists|v: i32| r.contains((v, a)) {
        let v = choose|v: i32| r.contains((v, a));
        assert(scored(query, apps, m, now).contains((v, a)));
    }
    if apps.contains(a) && score_of(query, a) is Some {
        let v = choose|v: i32| scored(query, apps, m, now).contains((v, a));
        assert(r.contains((v, a)));
    }
}

/// Ranked scores never increase down the list, and equal scores are ordered by
/// lowercase name.
pub proof fn law_rank_descends(r: Seq<(i32, AppView)>, s: Seq<(i32, AppView)>, i: int, j: int)
    requires
        stable_sort_of(r, s),
        0 <= i < j < r.len(),
    ensures
        r[i].0 >= r[j].0,
        r[i].0 == r[j].0 ==> !crate::sorting::lex_lt(lowercase(r[j].1.name), lowercase(r[i].1.name)),
{
    assert(!crate::sorting::goes_before(r[j], r[i]));
}

/// With an empty query (after trimming and lowercasing) every application is
/// listed, each with its recents bonus as its score.
pub proof fn law_empty_query_lists_all(
    query: Seq<char>,
    apps: Seq<AppView>,
    m: Map<Seq<char>, crate::recents::RecentEntry>,
    now: u64,
)
    requires
        query_key(query).len() == 0,
    ensures
        scored(query, apps, m, now).len() == apps.len(),
        forall|i: int| 0 <= i < apps.len() ==> #[trigger] scored(query, apps, m, now)[i] == (bonus_value(m, apps[i].desktop_id, now) as i32, apps[i]),
    decreases apps.len(),
{
    if apps.len() > 0 {
        law_empty_query_lists_all(query, apps.drop_last(), m, now);
        assert forall|i: int| 0 <= i < apps.len() implies #[trigger] scored(query, apps, m, now)[i] == (bonus_value(m, apps[i].desktop_id, now) as i32, apps[i]) by {
            if i < apps.len() - 1 {
                assert(apps.drop_last()[i] == apps[i]);
            }
        }
    }
}

/// With an empty query the ranking is ordered by recents bonus: an application
/// listed higher never has a smaller bonus than one listed below it (for histories
/// whose bonuses can be computed).
pub proof fn law_empty_query_ranks_by_bonus(
    r: Seq<(i32, AppView)>,
    query: Seq<char>,
    apps: Seq<AppView>,
    m: Map<Seq<char>, crate::recents::RecentEntry>,
    now: u64,
    i: int,
    j: int,
)
    requires
        query_key(query).len() == 0,
        rank_in_range(query, apps, m, now),
        stable_sort_of(r, scored(query, apps, m, now)),
        0 <= i < j < r.len(),
    ensures
        bonus_value(m, r[i].1.desktop_id, now) >= bonus_value(m, r[j].1.desktop_id, now),
{
    let s = scored(query, apps, m, now);
    law_empty_query_lists_all(query, apps, m, now);
    crate::sorting::law_stable_sort_permutes(r, s);
    law_rank_descends(r, s, i, j);
    assert forall|x: (i32, AppView)| #[trigger] r.contains(x) implies x.0 as int == bonus_value(
        m,
        x.1.desktop_id,
        now,
    ) by {
        assert(s.contains(x));
        let k = choose|k: int| 0 <= k < s.len() && s[k] == x;
        assert(entry_in_range(query, apps[k], m, now));
        crate::recents::lemma_bonus_bounds(m, apps[k].desktop_id, now);
    }
    assert(r.contains(r[i]));
    assert(r.contains(r[j]));
}

/// Whether the query matches the application.
pub open spec fn is_match(query: Seq<char>) -> spec_fn(AppView) -> bool {
    |a: AppView| score_of(query, a) is Some
}

proof fn lemma_scored_entries(query: Seq<char>, apps: Seq<AppView>, m: Map<Seq<char>, crate::recents::RecentEntry>, now: u64)
    ensures
        scored(query, apps, m, now).len() == apps.filter(is_match(query)).len(),
        forall|k: int|
            0 <= k < scored(query, apps, m, now).len() ==> score_of(query, (#[trigger] scored(query, apps, m, now)[k]).1) is Some
                && scored(query, apps, m, now)[k].0 == (score_of(query, scored(query, apps, m, now)[k].1)->0
                + bonus_value(m, scored(query, apps, m, now)[k].1.desktop_id, now)) as i32,
    decreases apps.len(),
{
    reveal(Seq::filter);
    if apps.len() > 0 {
        lemma_scored_entries(query, apps.drop_last(), m, now);
        let prev = scored(query, apps.drop_last(), m, now);
        let s = scored(query, apps, m, now);
        assert forall|k: int| 0 <= k < s.len() implies score_of(query, (#[trigger] s[k]).1) is Some && s[k].0
            == (score_of(query, s[k].1)->0 + bonus_value(m, s[k].1.desktop_id, now)) as i32 by {
            if k < prev.len() {
                assert(s[k] == prev[k]);
            }
        }
    }
}

/// The ranking has one entry per matching application, and each entry carries its
/// application's score plus its recents bonus at `now`.
pub proof fn law_rank_entries_scored(
    r: Seq<(i32, AppView)>,
    query: Seq<char>,
    apps: Seq<AppView>,
    m: Map<Seq<char>, crate::recents::RecentEntry>,
    now: u64,
)
    requires
        stable_sort_of(r, scored(query, apps, m, now)),
    ensures
        r.len() == apps.filter(is_match(query)).len(),
        forall|i: int|
            0 <= i < r.len() ==> score_of(query, (#[trigger] r[i]).1) is Some && r[i].0 == (score_of(
                query,
                r[i].1,
            )->0 + bonus_value(m, r[i].1.desktop_id, now)) as i32,
{
    let s = scored(query, apps, m, now);
    crate::sorting::law_stable_sort_permutes(r, s);
    lemma_scored_entries(query, apps, m, now);
    assert forall|i: int| 0 <= i < r.len() implies score_of(query, (#[trigger] r[i]).1) is Some && r[i].0
        == (score_of(query, r[i].1)->0 + bonus_value(m, r[i].1.desktop_id, now)) as i32 by {
        assert(r.contains(r[i]));
        assert(s.contains(r[i]));
        let k = choose|k: int| 0 <= k < s.len() && s[k] == r[i];
        assert(s[k] == r[i]);
    }
}

/// No score exceeds 1000, and a query without a match is non-empty, has a word
/// missing from the haystack, and is no subsequence of it.
pub proof fn law_score_bounded(query: Seq<char>, app: AppView)
    ensures
        score_of(query, app) matches Some(s) ==> s <= 1000,
        score_of(query, app) is None ==> query_key(query).len() > 0 && !all_tokens_in(
            query_key(query),
            haystack_of(app),
        ) && !is_subseq(query_key(query), haystack_of(app)),
{
}

/// How a query scores against an application, by the kind of match (with `q` the
/// trimmed, lowercased query, `name` the lowercased name, `h` the haystack, and
/// lengths and positions in UTF-8 bytes): an empty query scores 0; a name that
/// starts with `q` scores 1000 minus the name's length; a name that contains `q`
/// elsewhere scores 800 minus the position of its first occurrence; otherwise a
/// haystack holding every word of `q` scores 500; otherwise a haystack holding the
/// characters of `q` in order scores 200 minus its length; otherwise there is no
/// match. Only the name can give the prefix or containment score.
pub proof fn law_score_by_match_kind(query: Seq<char>, app: AppView)
    ensures
        query_key(query).len() == 0 ==> score_of(query, app) == Some(0int),
        query_key(query).len() > 0 && starts_with(lowercase(app.name), query_key(query)) ==> score_of(
            query,
            app,
        ) == Some(1000 - utf8_len(lowercase(app.name))),
        forall|p: int|
            query_key(query).len() > 0 && !starts_with(lowercase(app.name), query_key(query))
                && #[trigger] occurs_at(lowercase(app.name), query_key(query), p) && (forall|j: int|
                0 <= j < p ==> !occurs_at(lowercase(app.name), query_key(query), j)) ==> score_of(
                query,
                app,
            ) == Some(800 - utf8_len(lowercase(app.name).take(p))),
        query_key(query).len() > 0 && !contains(lowercase(app.name), query_key(query)) && all_tokens_in(
            query_key(query),
            haystack_of(app),
        ) ==> score_of(query, app) == Some(500int),
        query_key(query).len() > 0 && !contains(lowercase(app.name), query_key(query)) && !all_tokens_in(
            query_key(query),
            haystack_of(app),
        ) && is_subseq(query_key(query), haystack_of(app)) ==> score_of(query, app) == Some(
            200 - utf8_len(haystack_of(app)),
        ),
        query_key(query).len() > 0 && !contains(lowercase(app.name), query_key(query)) && !all_tokens_in(
            query_key(query),
            haystack_of(app),
        ) && !is_subseq(query_key(query), haystack_of(app)) ==> score_of(query, app) is None,
{
    let q = query_key(query);
    let name = lowercase(app.name);
    crate::text::lemma_find_from(name, q, 0);
    assert forall|p: int|
        q.len() > 0 && !starts_with(name, q) && #[trigger] occurs_at(name, q, p) && (forall|j: int|
            0 <= j < p ==> !occurs_at(name, q, j)) implies score_of(query, app) == Some(
        800 - utf8_len(name.take(p)),
    ) by {
        assert(contains(name, q));
        let k = find_from(name, q, 0)->0;
        if k < p {
            assert(!occurs_at(name, q, k));
        } else if p < k {
            assert(!occurs_at(name, q, p));
        }
    }
    if q.len() > 0 && starts_with(name, q) {
        assert(occurs_at(name, q, 0));
    }
}

/// The prefix score of an application whose name starts with the query depends on
/// the name alone: applications with the same name but any comment, keywords or
/// desktop id score the same.
pub proof fn law_prefix_score_ignores_details(query: Seq<char>, a: AppView, b: AppView)
    requires
        a.name == b.name,
        query_key(query).len() > 0,
        starts_with(lowercase(a.name), query_key(query)),
    ensures
        score_of(query, a) == score_of(query, b),
        score_of(query, a) == Some(1000 - utf8_len(lowercase(a.name))),
{
    law_score_by_match_kind(query, a);
    law_score_by_match_kind(query, b);
}

} // verus!
