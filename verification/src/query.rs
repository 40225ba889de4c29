//! What a typed query shows and what activating a row does: calculator preview,
//! web-search prefixes and bare URLs, custom commands, ranked applications.
use vstd::prelude::*;
use vstd::string::*;
use vstd::utf8::encode_utf8;

use crate::calc::{calc_expr, calc_outcome, meval_answer_for, meval_shown, shown_value, strip_calc_prefix};
use crate::desktop::{AppEntry, AppView};
use crate::extras::{prefix_matches, ExtraCommand};
use crate::fuzzy::{app_views, rank_in_range, scored};
use crate::recents::{RecentEntry, Recents};
use crate::sorting::{pair_views, stable_sort_of};
use crate::text::{
    chars_of, has_prefix, lowercase, push_str, starts_with, string_of, to_lower, trim,
    trim_bounds, trim_range, utf8_len, utf8_len_of, width_of,
};

verus! {

// ---------------------------------------------------------------- URL encoding
/// Bytes `urlencoding` leaves as they are: ASCII alphanumerics and `- . _ ~`.
pub open spec fn unreserved(b: u8) -> bool {
    (48 <= b <= 57) || (65 <= b <= 90) || (97 <= b <= 122) || b == 45 || b == 46 || b == 95
        || b == 126
}

/// Uppercase hexadecimal digit for `d < 16`.
pub open spec fn hex_digit(d: u8) -> char {
    if d < 10 {
        (48 + d) as char
    } else {
        (55 + d) as char
    }
}

/// Percent-encoding of a byte string: unreserved bytes as themselves, every other
/// byte as `%` and two uppercase hex digits.
pub open spec fn percent_encoded(bytes: Seq<u8>) -> Seq<char>
    decreases bytes.len(),
{
    if bytes.len() == 0 {
        seq![]
    } else {
        let b = bytes[0];
        let head = if unreserved(b) {
            seq![b as char]
        } else {
            seq!['%', hex_digit(b / 16), hex_digit(b % 16)]
        };
        head + percent_encoded(bytes.drop_first())
    }
}

/// Calls `urlencoding::encode`. Claims what its documentation and source say: every
/// UTF-8 byte except ASCII alphanumerics and `-`, `_`, `.`, `~` is percent-encoded
/// with uppercase hex digits.
#[verifier::external_body]
fn url_encode(s: &str) -> (r: String)
    ensures
        r@ == percent_encoded(encode_utf8(s@)),
{
    urlencoding::encode(s).into_owned()
}

// ---------------------------------------------------------------- byte offsets
/// Character index at which the first `n` UTF-8 bytes of `s` end, searching from `k`;
/// `None` when byte `n` falls inside a character or past the end.
pub open spec fn split_from(s: Seq<char>, n: int, k: int) -> Option<int>
    decreases s.len() + 1 - k,
{
    if k < 0 || k > s.len() {
        None
    } else if utf8_len(s.take(k)) == n {
        Some(k)
    } else if utf8_len(s.take(k)) > n || k == s.len() {
        None
    } else {
        split_from(s, n, k + 1)
    }
}

/// Character index of byte offset `n` in `s`, if `n` is a character boundary.
pub open spec fn byte_split(s: Seq<char>, n: int) -> Option<int> {
    split_from(s, n, 0)
}

proof fn lemma_split_from(s: Seq<char>, n: int, k: int)
    requires
        0 <= k <= s.len(),
    ensures
        split_from(s, n, k) matches Some(j) ==> k <= j <= s.len(),
    decreases s.len() + 1 - k,
{
    if utf8_len(s.take(k)) != n && utf8_len(s.take(k)) <= n && k < s.len() {
        lemma_split_from(s, n, k + 1);
    }
}

/// Exec form of [`byte_split`].
fn byte_index(v: &[char], n: usize) -> (r: Option<usize>)
    ensures
        r matches Some(k) ==> byte_split(v@, n as int) == Some(k as int) && k <= v@.len(),
        r is None ==> byte_split(v@, n as int) is None,
{
    let mut k: usize = 0;
    let mut bytes: usize = 0;
    assert(v@.take(0) =~= Seq::<char>::empty());
    loop
        invariant
            k <= v.len(),
            bytes == utf8_len(v@.take(k as int)),
            bytes <= n,
            split_from(v@, n as int, k as int) == byte_split(v@, n as int),
        decreases v.len() - k,
    {
        if bytes == n {
            return Some(k);
        }
        if k == v.len() {
            return None;
        }
        let w = width_of(v[k]);
        assert(v@.take(k + 1).drop_last() =~= v@.take(k as int));
        if w > n - bytes {
            assert(split_from(v@, n as int, k + 1) is None);
            return None;
        }
        bytes = bytes + w;
        k += 1;
    }
}

// ---------------------------------------------------------------- web actions
/// Bytes of the trimmed query to drop before the search terms, by the lowercased
/// query's prefix (`ddg `, `google `, `gs `, `? `, `?`); `None` when it has none,
/// or when it is a bare `http://` / `https://` URL.
pub open spec fn web_cut(lower: Seq<char>) -> Option<int> {
    if starts_with(lower, "http://"@) || starts_with(lower, "https://"@) {
        None
    } else if starts_with(lower, "ddg "@) {
        Some(4)
    } else if starts_with(lower, "google "@) {
        Some(7)
    } else if starts_with(lower, "gs "@) {
        Some(3)
    } else if starts_with(lower, "? "@) {
        Some(2)
    } else if lower.len() > 0 && lower[0] == '?' && utf8_len(lower) > 1 {
        Some(1)
    } else {
        None
    }
}

/// Search engine name and query URL base for a prefix.
pub open spec fn web_engine(lower: Seq<char>) -> (Seq<char>, Seq<char>) {
    if starts_with(lower, "google "@) || (!starts_with(lower, "ddg "@) && starts_with(lower, "gs "@)) {
        ("Google"@, "https://www.google.com/search?q="@)
    } else {
        ("DuckDuckGo"@, "https://duckduckgo.com/?q="@)
    }
}

/// The web row for a query: `(title, url)`.
pub open spec fn web_action(query: Seq<char>) -> Option<(Seq<char>, Seq<char>)> {
    let q = trim(query);
    let lower = lowercase(q);
    if q.len() == 0 {
        None
    } else if starts_with(lower, "http://"@) || starts_with(lower, "https://"@) {
        Some(("Open "@ + q, q))
    } else {
        match web_cut(lower) {
            None => None,
            Some(n) => match byte_split(q, n) {
                None => None,
                Some(k) => {
                    let rest = trim(q.skip(k));
                    if rest.len() == 0 {
                        None
                    } else {
                        let (engine, base) = web_engine(lower);
                        Some(
                            (
                                "Search "@ + engine + ": "@ + rest,
                                base + percent_encoded(encode_utf8(rest)),
                            ),
                        )
                    }
                },
            },
        }
    }
}

/// The prefix cut falls on a character boundary of the trimmed query (the byte
/// slice the prefix handling takes would panic otherwise).
pub open spec fn web_slice_ok(query: Seq<char>) -> bool {
    let q = trim(query);
    q.len() > 0 ==> (web_cut(lowercase(q)) matches Some(n) ==> byte_split(q, n) is Some)
}

/// Pop-style web prefixes and bare URLs. Returns (title, url) if matched.
pub fn parse_web_action(query: &str) -> (r: Option<(String, String)>)
    requires
        web_slice_ok(query@),
    ensures
        r is Some <==> web_action(query@) is Some,
        r matches Some(p) ==> web_action(query@) == Some((p.0@, p.1@)),
{
    match try_parse_web_action(query) {
        Some(r) => r,
        None => None,
    }
}

/// [`parse_web_action`], or `None` when the prefix cut is not a character boundary.
pub fn try_parse_web_action(query: &str) -> (r: Option<Option<(String, String)>>)
    ensures
        r is Some <==> web_slice_ok(query@),
        r matches Some(w) ==> (w is Some <==> web_action(query@) is Some) && (w matches Some(p)
            ==> web_action(query@) == Some((p.0@, p.1@))),
{
    let qv = chars_of(query);
    let (a, b) = trim_bounds(qv.as_slice());
    if a == b {
        return Some(None);
    }
    let mut q: Vec<char> = Vec::new();
    let mut i = a;
    while i < b
        invariant
            a <= i <= b <= qv.len(),
            q@ == qv@.subrange(a as int, i as int),
        decreases b - i,
    {
        q.push(qv[i]);
        i += 1;
        assert(q@ == qv@.subrange(a as int, i as int));
    }
    let qs = string_of(q.as_slice());
    let lower_s = to_lower(qs.as_str());
    let lower = chars_of(lower_s.as_str());
    let http = chars_of("http://");
    let https = chars_of("https://");
    if has_prefix(lower.as_slice(), http.as_slice()) || has_prefix(lower.as_slice(), https.as_slice()) {
        let title = String::from_str("Open ").concat(qs.as_str());
        return Some(Some((title, qs)));
    }
    let ddg = chars_of("ddg ");
    let google = chars_of("google ");
    let gs = chars_of("gs ");
    let qsp = chars_of("? ");
    proof {
        reveal_strlit("ddg ");
        reveal_strlit("google ");
        reveal_strlit("gs ");
        reveal_strlit("? ");
    }
    let is_ddg = has_prefix(lower.as_slice(), ddg.as_slice());
    let is_google = has_prefix(lower.as_slice(), google.as_slice());
    let is_gs = has_prefix(lower.as_slice(), gs.as_slice());
    let is_qsp = has_prefix(lower.as_slice(), qsp.as_slice());
    let cut: usize = if is_ddg {
        4
    } else if is_google {
        7
    } else if is_gs {
        3
    } else if is_qsp {
        2
    } else if lower.len() > 0 && lower[0] == '?' {
        match utf8_len_of(lower.as_slice()) {
            Some(l) => if l > 1 {
                1
            } else {
                return Some(None);
            },
            None => 1,
        }
    } else {
        return Some(None);
    };
    assert(web_cut(lowercase(q@)) == Some(cut as int));
    let k = match byte_index(q.as_slice(), cut) {
        Some(k) => k,
        None => return None,
    };
    let (c, d) = trim_range(q.as_slice(), k, q.len());
    if c == d {
        return Some(None);
    }
    let mut rest_v: Vec<char> = Vec::new();
    let mut j = c;
    while j < d
        invariant
            c <= j <= d <= q.len(),
            rest_v@ == q@.subrange(c as int, j as int),
        decreases d - j,
    {
        rest_v.push(q[j]);
        j += 1;
        assert(rest_v@ == q@.subrange(c as int, j as int));
    }
    let rest = string_of(rest_v.as_slice());
    assert(q@.subrange(k as int, q@.len() as int) =~= q@.skip(k as int));
    let google_like = is_google || (!is_ddg && is_gs);
    let (engine, base) = if google_like {
        ("Google", "https://www.google.com/search?q=")
    } else {
        ("DuckDuckGo", "https://duckduckgo.com/?q=")
    };
    let mut title = String::from_str("Search ");
    push_str(&mut title, engine);
    push_str(&mut title, ": ");
    push_str(&mut title, rest.as_str());
    let mut url = String::from_str(base);
    let enc = url_encode(rest.as_str());
    push_str(&mut url, enc.as_str());
    Some(Some((title, url)))
}

// ---------------------------------------------------------------- calculator preview
/// The calculator row's `(display, result)`, given meval's answer for the
/// expression of the query.
pub open spec fn calc_preview(query: Seq<char>, meval: Option<(u64, String)>) -> Option<
    (Seq<char>, Option<Seq<char>>),
> {
    match calc_expr(query) {
        None => None,
        Some(e) => if e.len() == 0 {
            Some(("= type expression (e.g. 2+2)"@, None))
        } else {
            match meval_shown(meval) {
                Some(v) => Some(("= "@ + v, Some(v))),
                None => Some(("= (invalid expression)"@, None)),
            }
        },
    }
}

/// The view of a `(display, result)` pair.
pub open spec fn preview_view(p: (String, Option<String>)) -> (Seq<char>, Option<Seq<char>>) {
    (p.0@, match p.1 {
        Some(s) => Some(s@),
        None => None,
    })
}

/// The view of an optional `(display, result)` pair.
pub open spec fn opt_preview_view(r: Option<(String, Option<String>)>) -> Option<
    (Seq<char>, Option<Seq<char>>),
> {
    match r {
        Some(p) => Some(preview_view(p)),
        None => None,
    }
}

/// The calculator `(display, result)` for a query, given meval's answer for its
/// expression.
pub fn calc_preview_from(query: &str, meval: Option<(u64, String)>) -> (r: Option<
    (String, Option<String>),
>)
    ensures
        opt_preview_view(r) == calc_preview(query@, meval),
{
    let expr = match strip_calc_prefix(query) {
        Some(e) => e,
        None => return None,
    };
    if expr.unicode_len() == 0 {
        return Some((String::from_str("= type expression (e.g. 2+2)"), None));
    }
    match shown_value(meval) {
        Ok(v) => {
            let display = String::from_str("= ").concat(v.as_str());
            Some((display, Some(v)))
        },
        Err(_) => Some((String::from_str("= (invalid expression)"), None)),
    }
}

/// Parse `=` / `＝` calculator prefix. Returns (display, Some(result)) on success,
/// (display, None) for bare `=` hint or invalid expressions, or None if not calc.
/// The expression is evaluated once with meval.
pub fn parse_calc(query: &str) -> (r: Option<(String, Option<String>)>)
    ensures
        exists|o: Option<(u64, String)>|
            meval_answer_for(query@, o) && opt_preview_view(r) == #[trigger] calc_preview(query@, o),
{
    let o = calc_outcome(query);
    let r = calc_preview_from(query, o);
    assert(opt_preview_view(r) == calc_preview(query@, o));
    r
}

// ---------------------------------------------------------------- result rows
/// Visible result row: app or a special action (calc / web / URL / extra).
#[derive(Clone, Debug)]
pub enum ResultItem {
    App(AppEntry),
    Calc { display: String, result: Option<String> },
    Web { title: String, url: String },
    Extra { label: String, command: String },
}

/// The content of a result row.
pub ghost enum ItemView {
    App(AppView),
    Calc(Seq<char>, Option<Seq<char>>),
    Web(Seq<char>, Seq<char>),
    Extra(Seq<char>, Seq<char>),
}

pub open spec fn item_view(i: ResultItem) -> ItemView {
    match i {
        ResultItem::App(a) => ItemView::App(a@),
        ResultItem::Calc { display, result } => ItemView::Calc(display@, match result {
            Some(s) => Some(s@),
            None => None,
        }),
        ResultItem::Web { title, url } => ItemView::Web(title@, url@),
        ResultItem::Extra { label, command } => ItemView::Extra(label@, command@),
    }
}

pub open spec fn item_views(s: Seq<ResultItem>) -> Seq<ItemView> {
    s.map_values(|i: ResultItem| item_view(i))
}

/// Rows for the custom commands whose prefix the query matches, in order.
pub open spec fn extra_rows(query: Seq<char>, extras: Seq<ExtraCommand>) -> Seq<ItemView>
    decreases extras.len(),
{
    if extras.len() == 0 {
        seq![]
    } else {
        let prev = extra_rows(query, extras.drop_last());
        let e = extras.last();
        if prefix_matches(query, e.prefix@) {
            prev.push(ItemView::Extra(e.label@, e.command@))
        } else {
            prev
        }
    }
}

/// At most the first 50 ranked applications, as rows.
pub open spec fn app_rows(ranked: Seq<(i32, AppView)>) -> Seq<ItemView> {
    let n = if ranked.len() < 50 {
        ranked.len() as int
    } else {
        50
    };
    ranked.take(n).map_values(|p: (i32, AppView)| ItemView::App(p.1))
}

/// The rows of a non-calculator, non-web query: matching custom commands, then the
/// first 50 applications of the ranking at `now`.
pub open spec fn list_rows(rows: Seq<ItemView>, query: Seq<char>, apps: Seq<AppView>, m: Map<Seq<char>, RecentEntry>, extras: Seq<ExtraCommand>, now: u64, limit: int) -> bool {
    exists|ranked: Seq<(i32, AppView)>|
        stable_sort_of(ranked, #[trigger] scored(query, apps, m, now)) && rows == capped(
            extra_rows(query, extras) + app_rows(ranked),
            limit,
        )
}

/// At most the first `limit` rows.
pub open spec fn capped(rows: Seq<ItemView>, limit: int) -> Seq<ItemView> {
    if rows.len() <= limit {
        rows
    } else {
        rows.take(limit)
    }
}

/// The web row of a web query.
pub open spec fn web_row(query: Seq<char>) -> ItemView {
    let w = web_action(query)->0;
    ItemView::Web(w.0, w.1)
}

/// The calculator row of a calculator query.
pub open spec fn calc_row_view(query: Seq<char>, meval: Option<(u64, String)>) -> ItemView {
    let c = calc_preview(query, meval)->0;
    ItemView::Calc(c.0, c.1)
}

/// All rows for a query, before the limit.
fn all_rows(
    query: &str,
    meval: Option<(u64, String)>,
    apps: &[AppEntry],
    recents: &Recents,
    extras: &[ExtraCommand],
    now: u64,
) -> (r: Option<Vec<ResultItem>>)
    ensures
        calc_preview(query@, meval) is Some ==> (r matches Some(v) && item_views(v@) == seq![calc_row_view(query@, meval)]),
        calc_preview(query@, meval) is None ==> {
            if !web_slice_ok(query@) {
                r is None
            } else if web_action(query@) is Some {
                (r matches Some(v) && item_views(v@) == seq![web_row(query@)])
            } else if !rank_in_range(query@, app_views(apps@), recents@, now) {
                r is None
            } else {
                (r matches Some(v) && exists|ranked: Seq<(i32, AppView)>|
                    stable_sort_of(ranked, #[trigger] scored(query@, app_views(apps@), recents@, now))
                        && item_views(v@) == extra_rows(query@, extras@) + app_rows(ranked))
            }
        },
{
    let mut items: Vec<ResultItem> = Vec::new();
    if let Some((display, result)) = calc_preview_from(query, meval) {
        items.push(ResultItem::Calc { display, result });
        assert(item_views(items@) =~= seq![calc_row_view(query@, meval)]);
        return Some(items);
    }
    match try_parse_web_action(query) {
        None => return None,
        Some(Some((title, url))) => {
            items.push(ResultItem::Web { title, url });
            assert(item_views(items@) =~= seq![web_row(query@)]);
            return Some(items);
        },
        Some(None) => {},
    }
    let mut i: usize = 0;
    while i < extras.len()
        invariant
            i <= extras.len(),
            item_views(items@) == extra_rows(query@, extras@.take(i as int)),
        decreases extras.len() - i,
    {
        let ex = &extras[i];
        assert(extras@.take(i + 1).drop_last() =~= extras@.take(i as int));
        assert(extras@.take(i + 1).last() == *ex);
        if crate::extras::matches(query, ex.prefix.as_str()) {
            let ghost before = item_views(items@);
            items.push(ResultItem::Extra { label: ex.label.clone(), command: ex.command.clone() });
            assert(item_views(items@) =~= before.push(ItemView::Extra(ex.label@, ex.command@)));
        }
        i += 1;
    }
    assert(extras@.take(extras.len() as int) =~= extras@);
    let ranked = match crate::fuzzy::try_rank_at(query, apps, recents, now) {
        Some(r) => r,
        None => return None,
    };
    let ghost head = item_views(items@);
    let mut j: usize = 0;
    while j < ranked.len() && j < 50
        invariant
            j <= ranked.len(),
            j <= 50,
            item_views(items@) == head + app_rows(pair_views(ranked@).take(j as int)),
        decreases ranked.len() - j,
    {
        let ghost before = item_views(items@);
        items.push(ResultItem::App(ranked[j].1.clone()));
        proof {
            let pv = pair_views(ranked@);
            assert(app_rows(pv.take(j + 1)) =~= app_rows(pv.take(j as int)).push(ItemView::App(pv[j as int].1)));
            assert(item_views(items@) =~= before.push(ItemView::App(ranked@[j as int].1@)));
        }
        j += 1;
    }
    proof {
        let pv = pair_views(ranked@);
        assert(app_rows(pv.take(j as int)) =~= app_rows(pv));
        assert(item_views(items@) == extra_rows(query@, extras@) + app_rows(pv));
    }
    Some(items)
}

/// Rows for a query (calculator row, else web row, else custom commands and
/// ranked apps), with meval's answer `meval` for the calculator expression, the
/// ranking at time `now`, and at most `limit` rows (the `max_results` setting).
/// `None` where the list cannot be built: a web prefix cut inside a character, or a
/// score/bonus out of `i32`.
pub fn result_items(
    query: &str,
    meval: Option<(u64, String)>,
    apps: &[AppEntry],
    recents: &Recents,
    extras: &[ExtraCommand],
    now: u64,
    limit: usize,
) -> (r: Option<Vec<ResultItem>>)
    ensures
        r matches Some(v) ==> v.len() <= limit,
        calc_preview(query@, meval) is Some ==> (r matches Some(v) && item_views(v@) == capped(
            seq![calc_row_view(query@, meval)],
            limit as int,
        )),
        calc_preview(query@, meval) is None ==> {
            if !web_slice_ok(query@) {
                r is None
            } else if web_action(query@) is Some {
                (r matches Some(v) && item_views(v@) == capped(seq![web_row(query@)], limit as int))
            } else if !rank_in_range(query@, app_views(apps@), recents@, now) {
                r is None
            } else {
                (r matches Some(v) && list_rows(item_views(v@), query@, app_views(apps@), recents@, extras@, now, limit as int))
            }
        },
{
    match all_rows(query, meval, apps, recents, extras, now) {
        None => None,
        Some(mut items) => {
            let ghost full = item_views(items@);
            let ghost before = items@;
            items.truncate(limit);
            proof {
                if limit <= before.len() {
                    assert(item_views(items@) =~= full.take(limit as int));
                }
                assert(item_views(items@) == capped(full, limit as int));
            }
            Some(items)
        },
    }
}

// ---------------------------------------------------------------- activation
/// What activating a row does.
pub enum Action {
    /// Hint or invalid-expression row, or no row: nothing.
    Nothing,
    /// Record the launch, start the app, quit.
    Launch(AppEntry),
    /// Show and copy a calculator result; the list is rebuilt for `requery`.
    CopyResult { result: String, requery: String },
    /// Open the URL in the browser, quit.
    OpenUrl(String),
    /// Run the custom command through the shell, quit.
    RunShell(String),
}

/// The action for activating row `idx` of `results`.
pub open spec fn action_of(results: Seq<ItemView>, idx: int) -> ActionView {
    if idx < 0 || idx >= results.len() {
        ActionView::Nothing
    } else {
        match results[idx] {
            ItemView::App(a) => ActionView::Launch(a),
            ItemView::Calc(_, None) => ActionView::Nothing,
            ItemView::Calc(_, Some(v)) => ActionView::CopyResult(v, "="@ + v),
            ItemView::Web(_, url) => ActionView::OpenUrl(url),
            ItemView::Extra(_, cmd) => ActionView::RunShell(cmd),
        }
    }
}

/// The content of an action.
pub ghost enum ActionView {
    Nothing,
    Launch(AppView),
    CopyResult(Seq<char>, Seq<char>),
    OpenUrl(Seq<char>),
    RunShell(Seq<char>),
}

pub open spec fn action_view(a: Action) -> ActionView {
    match a {
        Action::Nothing => ActionView::Nothing,
        Action::Launch(app) => ActionView::Launch(app@),
        Action::CopyResult { result, requery } => ActionView::CopyResult(result@, requery@),
        Action::OpenUrl(u) => ActionView::OpenUrl(u@),
        Action::RunShell(c) => ActionView::RunShell(c@),
    }
}

/// Decide what activating row `idx` does.
pub fn activation(results: &[ResultItem], idx: usize) -> (r: Action)
    ensures
        action_view(r) == action_of(item_views(results@), idx as int),
{
    if idx >= results.len() {
        return Action::Nothing;
    }
    assert(item_views(results@)[idx as int] == item_view(results@[idx as int]));
    match &results[idx] {
        ResultItem::App(a) => Action::Launch(a.clone()),
        ResultItem::Calc { result, .. } => match result {
            None => Action::Nothing,
            Some(v) => Action::CopyResult { result: v.clone(), requery: String::from_str("=").concat(v.as_str()) },
        },
        ResultItem::Web { url, .. } => Action::OpenUrl(url.clone()),
        ResultItem::Extra { command, .. } => Action::RunShell(command.clone()),
    }
}

// ---------------------------------------------------------------- keyboard
/// Selection after moving by `delta` from `current` (row 0 when none) in a list of
/// `n` rows, clamped to the list; `None` for an empty list.
pub open spec fn moved_selection(n: int, current: Option<i32>, delta: i32) -> Option<int> {
    if n == 0 {
        None
    } else {
        let idx = match current {
            Some(i) => i as int,
            None => 0,
        };
        let t = idx + delta;
        Some(if t < 0 {
            0
        } else if t > n - 1 {
            n - 1
        } else {
            t
        })
    }
}

/// Row to select after ↑/↓ (`delta` −1/+1).
pub fn next_selection(n: usize, current: Option<i32>, delta: i32) -> (r: Option<i32>)
    requires
        n <= i32::MAX,
        i32::MIN <= match current {
            Some(i) => i as int,
            None => 0,
        } + delta <= i32::MAX,
    ensures
        r matches Some(v) ==> moved_selection(n as int, current, delta) == Some(v as int),
        r is None <==> moved_selection(n as int, current, delta) is None,
{
    let n = n as i32;
    if n == 0 {
        return None;
    }
    let idx = match current {
        Some(i) => i,
        None => 0,
    };
    let t = idx + delta;
    Some(if t < 0 {
        0
    } else if t > n - 1 {
        n - 1
    } else {
        t
    })
}

/// Row launched by Alt+digit: Alt alone (not with Ctrl or Super) and digits 1–9
/// (main row or keypad) pick rows 0–8.
pub open spec fn alt_digit(alt: bool, ctrl: bool, super_key: bool, digit: Option<u32>) -> Option<int> {
    if !alt || ctrl || super_key {
        None
    } else {
        match digit {
            Some(d) => if 1 <= d <= 9 {
                Some(d - 1)
            } else {
                None
            },
            None => None,
        }
    }
}

/// Row for Alt+1…9 (`digit`: the digit key pressed, if any).
pub fn alt_digit_index(alt: bool, ctrl: bool, super_key: bool, digit: Option<u32>) -> (r: Option<usize>)
    ensures
        r matches Some(i) ==> alt_digit(alt, ctrl, super_key, digit) == Some(i as int),
        r is None <==> alt_digit(alt, ctrl, super_key, digit) is None,
{
    if !alt {
        return None;
    }
    if ctrl || super_key {
        return None;
    }
    match digit {
        Some(d) => if 1 <= d && d <= 9 {
            Some((d - 1) as usize)
        } else {
            None
        },
        None => None,
    }
}

/// The navigation keys the launcher reacts to (`Other` for every other key).
#[derive(PartialEq, Eq, Structural, Clone, Copy, Debug)]
pub enum NavKey {
    /// Escape.
    Escape,
    /// ↓, keypad ↓ or Tab.
    Down,
    /// ↑, keypad ↑ or Shift+Tab.
    Up,
    /// Return or keypad Enter.
    Enter,
    Other,
}

/// What a key press in the search field does.
#[derive(PartialEq, Eq, Structural, Clone, Copy, Debug)]
pub enum KeyAction {
    /// Close the launcher.
    Quit,
    /// Activate this row (Alt+digit).
    ActivateRow(usize),
    /// Move the selection by this many rows.
    MoveSelection(i32),
    /// Activate the selected row (row 0 when none is selected).
    ActivateSelected,
    /// Let the search field handle the key.
    Pass,
}

/// The key handling: Escape closes; Alt+1…9 (`alt_row`, from [`alt_digit_index`])
/// activates that row; ↓ / ↑ move the selection by one; Enter activates the
/// selected row; any other key is left to the search field.
pub open spec fn key_effect(key: NavKey, alt_row: Option<usize>) -> KeyAction {
    if key == NavKey::Escape {
        KeyAction::Quit
    } else if alt_row is Some {
        KeyAction::ActivateRow(alt_row->0)
    } else if key == NavKey::Down {
        KeyAction::MoveSelection(1i32)
    } else if key == NavKey::Up {
        KeyAction::MoveSelection(-1i32)
    } else if key == NavKey::Enter {
        KeyAction::ActivateSelected
    } else {
        KeyAction::Pass
    }
}

/// Decide what a key press does.
pub fn key_action(key: NavKey, alt_row: Option<usize>) -> (r: KeyAction)
    ensures
        r == key_effect(key, alt_row),
{
    if key == NavKey::Escape {
        return KeyAction::Quit;
    }
    if let Some(n) = alt_row {
        return KeyAction::ActivateRow(n);
    }
    match key {
        NavKey::Down => KeyAction::MoveSelection(1),
        NavKey::Up => KeyAction::MoveSelection(-1),
        NavKey::Enter => KeyAction::ActivateSelected,
        _ => KeyAction::Pass,
    }
}

/// The row Enter activates: the selected row's index (`as usize`), or row 0 when
/// none is selected.
pub fn selected_row(selected: Option<i32>) -> (r: usize)
    ensures
        r == match selected {
            Some(i) => i as usize,
            None => 0usize,
        },
{
    match selected {
        Some(i) => i as usize,
        None => 0,
    }
}

/// Moving the selection in a list of `n` rows: from row `i` (row 0 when none is
/// selected), a step by `delta` lands on row `i + delta` when that is a row, on the
/// first row when it falls before it and on the last row when it falls after it;
/// an empty list has no selection.
pub proof fn law_selection_step(n: int, current: Option<i32>, delta: i32)
    requires
        n >= 0,
    ensures
        n == 0 ==> moved_selection(n, current, delta) is None,
        n > 0 && 0 <= (match current {
            Some(i) => i as int,
            None => 0int,
        }) + delta < n ==> moved_selection(n, current, delta) == Some(
            (match current {
                Some(i) => i as int,
                None => 0int,
            }) + delta,
        ),
        n > 0 && (match current {
            Some(i) => i as int,
            None => 0int,
        }) + delta < 0 ==> moved_selection(n, current, delta) == Some(0int),
        n > 0 && (match current {
            Some(i) => i as int,
            None => 0int,
        }) + delta >= n ==> moved_selection(n, current, delta) == Some(n - 1),
{
}

/// Moving down and then up again returns to the same row unless a step was
/// clamped at an end of the list.
pub proof fn law_down_then_up(n: int, i: i32)
    requires
        0 <= i < i32::MAX,
        i + 1 < n,
    ensures
        moved_selection(n, Some(i), 1i32) == Some(i + 1),
        moved_selection(n, Some((i + 1) as i32), -1i32) == Some(i as int),
{
}

} // verus!
