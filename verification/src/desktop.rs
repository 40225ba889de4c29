//! `.desktop` entries: the application record, the XDG directories that hold them,
//! `Exec` field-code stripping and the `[Desktop Entry]` parser.
use vstd::prelude::*;
use vstd::string::*;

use crate::sorting::{keyed_ok, keyed_views, pair_views, sort_by_rank, stable_sort_of};
use crate::text::{
    ascii_lower, chars_of, contains, eq_ignore_ascii_case, find_chars, find_from, has_substring,
    is_whitespace, is_ws, lemma_find_from, lemma_skip_ws_bounds, lines, lowercase, push_str,
    same_chars, same_ignore_ascii_case, skip_ws_from, split_lines, string_of, string_of_range,
    to_lower, trim, trim_bounds, trim_range, views,
};

verus! {

/// One launchable application, as read from its `.desktop` file.
#[derive(Debug)]
pub struct AppEntry {
    pub name: String,
    pub exec_cmd: String,
    pub desktop_id: String,
    pub comment: String,
    pub keywords: String,
    pub icon: String,
    pub terminal: bool,
}

/// The character content of an [`AppEntry`].
pub ghost struct AppView {
    pub name: Seq<char>,
    pub exec_cmd: Seq<char>,
    pub desktop_id: Seq<char>,
    pub comment: Seq<char>,
    pub keywords: Seq<char>,
    pub icon: Seq<char>,
    pub terminal: bool,
}

impl View for AppEntry {
    type V = AppView;

    open spec fn view(&self) -> AppView {
        AppView {
            name: self.name@,
            exec_cmd: self.exec_cmd@,
            desktop_id: self.desktop_id@,
            comment: self.comment@,
            keywords: self.keywords@,
            icon: self.icon@,
            terminal: self.terminal,
        }
    }
}

impl Clone for AppEntry {
    fn clone(&self) -> (r: Self)
        ensures
            r@ == self@,
    {
        AppEntry {
            name: self.name.clone(),
            exec_cmd: self.exec_cmd.clone(),
            desktop_id: self.desktop_id.clone(),
            comment: self.comment.clone(),
            keywords: self.keywords.clone(),
            icon: self.icon.clone(),
            terminal: self.terminal,
        }
    }
}

/// Name, comment, keywords and desktop id, space-separated, lowercased.
pub open spec fn haystack_of(a: AppView) -> Seq<char> {
    lowercase(a.name + " "@ + a.comment + " "@ + a.keywords + " "@ + a.desktop_id)
}

impl AppEntry {
    /// Text searched by the token and subsequence matchers.
    pub fn haystack(&self) -> (r: String)
        ensures
            r@ == haystack_of(self@),
    {
        let mut s = self.name.clone();
        push_str(&mut s, " ");
        push_str(&mut s, self.comment.as_str());
        push_str(&mut s, " ");
        push_str(&mut s, self.keywords.as_str());
        push_str(&mut s, " ");
        push_str(&mut s, self.desktop_id.as_str());
        proof {
            reveal_strlit(" ");
        }
        to_lower(s.as_str())
    }
}

// ---------------------------------------------------------------- directories
/// `Path::join` of a relative path onto `base`: a separator is added unless `base`
/// is empty or already ends with one.
pub open spec fn path_join(base: Seq<char>, rel: Seq<char>) -> Seq<char> {
    if base.len() == 0 {
        rel
    } else if base.last() == '/' {
        base + rel
    } else {
        base + "/"@ + rel
    }
}

/// The application directories scanned, in priority order, for a home directory.
pub open spec fn desktop_dirs_of(home: Seq<char>) -> Seq<Seq<char>> {
    seq![
        path_join(home, ".local/share/applications"@),
        "/usr/share/applications"@,
        "/usr/local/share/applications"@,
        path_join(home, ".local/share/flatpak/exports/share/applications"@),
        "/var/lib/flatpak/exports/share/applications"@,
        "/var/lib/snapd/desktop/applications"@,
    ]
}

fn join_path(base: &str, rel: &str) -> (r: String)
    ensures
        r@ == path_join(base@, rel@),
{
    let b = chars_of(base);
    let mut out = String::from_str(base);
    if b.len() > 0 && b[b.len() - 1] != '/' {
        out.push('/');
    }
    push_str(&mut out, rel);
    proof {
        reveal_strlit("/");
        if b.len() > 0 && b@.last() != '/' {
            assert(out@ =~= base@ + "/"@ + rel@);
        }
    }
    out
}

/// Application directories for the home directory `home` (`$HOME`, or `/`).
pub fn desktop_dirs(home: &str) -> (r: Vec<String>)
    ensures
        r@.map_values(|s: String| s@) == desktop_dirs_of(home@),
{
    let mut v: Vec<String> = Vec::new();
    v.push(join_path(home, ".local/share/applications"));
    v.push(String::from_str("/usr/share/applications"));
    v.push(String::from_str("/usr/local/share/applications"));
    v.push(join_path(home, ".local/share/flatpak/exports/share/applications"));
    v.push(String::from_str("/var/lib/flatpak/exports/share/applications"));
    v.push(String::from_str("/var/lib/snapd/desktop/applications"));
    assert(v@.map_values(|s: String| s@) =~= desktop_dirs_of(home@));
    v
}

// ---------------------------------------------------------------- Exec field codes
/// The field codes dropped from `Exec`: `%f %F %u %U %d %D %n %N %i %c %k %v %m`.
pub open spec fn is_field_code(c: char) -> bool {
    c == 'f' || c == 'F' || c == 'u' || c == 'U' || c == 'd' || c == 'D' || c == 'n' || c == 'N'
        || c == 'i' || c == 'c' || c == 'k' || c == 'v' || c == 'm'
}

/// Scan of `s` from `i` removing every `\s*%X` with `X` a field code: at each
/// position, whitespace followed by a field code is dropped together with it;
/// otherwise the character at the position is kept.
pub open spec fn strip_codes_from(s: Seq<char>, i: int) -> Seq<char>
    decreases s.len() - i,
{
    if i < 0 || i >= s.len() {
        seq![]
    } else {
        let j = skip_ws_from(s, i);
        proof {
            lemma_skip_ws_bounds(s, i);
        }
        if j + 1 < s.len() && s[j] == '%' && is_field_code(s[j + 1]) {
            strip_codes_from(s, j + 2)
        } else {
            seq![s[i]] + strip_codes_from(s, i + 1)
        }
    }
}

/// `Exec` with its field codes removed, trimmed.
pub open spec fn stripped_exec(s: Seq<char>) -> Seq<char> {
    trim(strip_codes_from(s, 0))
}

fn field_code(c: char) -> (b: bool)
    ensures
        b == is_field_code(c),
{
    c == 'f' || c == 'F' || c == 'u' || c == 'U' || c == 'd' || c == 'D' || c == 'n' || c == 'N'
        || c == 'i' || c == 'c' || c == 'k' || c == 'v' || c == 'm'
}

/// Strip Exec field codes: `\s*%[fFuUdDnNickvm]`, then trim.
pub fn strip_exec_codes(exec_cmd: &str) -> (r: String)
    ensures
        r@ == stripped_exec(exec_cmd@),
{
    let chars = chars_of(exec_cmd);
    let mut out: Vec<char> = Vec::new();
    let mut i: usize = 0;
    while i < chars.len()
        invariant
            i <= chars.len(),
            out@ + strip_codes_from(chars@, i as int) == strip_codes_from(chars@, 0),
        decreases chars.len() - i,
    {
        let mut j = i;
        while j < chars.len() && is_whitespace(chars[j])
            invariant
                i <= j <= chars.len(),
                skip_ws_from(chars@, j as int) == skip_ws_from(chars@, i as int),
            decreases chars.len() - j,
        {
            j += 1;
        }
        if chars.len() > 1 && j < chars.len() - 1 && chars[j] == '%' {
            let code = chars[j + 1];
            if field_code(code) {
                i = j + 2;
                continue;
            }
        }
        let ghost before = out@;
        out.push(chars[i]);
        proof {
            assert(strip_codes_from(chars@, i as int) == seq![chars@[i as int]] + strip_codes_from(
                chars@,
                i + 1,
            ));
            assert(out@ + strip_codes_from(chars@, i + 1) =~= before + strip_codes_from(
                chars@,
                i as int,
            ));
        }
        i += 1;
    }
    let (a, b) = trim_bounds(out.as_slice());
    string_of_range(out.as_slice(), a, b)
}

// ---------------------------------------------------------------- parsing
/// Lines of the `[Desktop Entry]` group, scanning from line `i`: a line that trims
/// to the header (re)opens the group; once open, a line starting with `[` ends it.
pub open spec fn section_from(ls: Seq<Seq<char>>, i: int, in_entry: bool) -> Seq<Seq<char>>
    decreases ls.len() - i,
{
    if i < 0 || i >= ls.len() {
        seq![]
    } else if trim(ls[i]) == "[Desktop Entry]"@ {
        section_from(ls, i + 1, true)
    } else if ls[i].len() > 0 && ls[i][0] == '[' && in_entry {
        seq![]
    } else if in_entry {
        seq![ls[i]] + section_from(ls, i + 1, true)
    } else {
        section_from(ls, i + 1, false)
    }
}

/// The `(key, value)` of a group line, both trimmed, split at the first `=`;
/// `None` for empty lines, comments and lines without `=`.
pub open spec fn entry_pair(line: Seq<char>) -> Option<(Seq<char>, Seq<char>)> {
    if line.len() == 0 || line[0] == '#' || !contains(line, "="@) {
        None
    } else {
        match find_from(line, "="@, 0) {
            Some(k) => Some((trim(line.take(k)), trim(line.skip(k + 1)))),
            None => None,
        }
    }
}

/// Value of `key` in a group: the value on the last line that sets it.
pub open spec fn lookup(sec: Seq<Seq<char>>, key: Seq<char>) -> Option<Seq<char>>
    decreases sec.len(),
{
    if sec.len() == 0 {
        None
    } else {
        match entry_pair(sec.last()) {
            Some(p) => if p.0 == key {
                Some(p.1)
            } else {
                lookup(sec.drop_last(), key)
            },
            None => lookup(sec.drop_last(), key),
        }
    }
}

/// A boolean key set to `true` (ASCII case-insensitively).
pub open spec fn is_true(v: Option<Seq<char>>) -> bool {
    v matches Some(x) && eq_ignore_ascii_case(x, "true"@)
}

/// `s` with every `;` replaced by a space.
pub open spec fn semicolons_to_spaces(s: Seq<char>) -> Seq<char> {
    s.map_values(|c: char| if c == ';' { ' ' } else { c })
}

/// The application a `.desktop` file text describes, for the file name `id`.
pub open spec fn desktop_entry(text: Seq<char>, id: Seq<char>) -> Option<AppView> {
    let sec = section_from(lines(text), 0, false);
    if !contains(text, "[Desktop Entry]"@) {
        None
    } else if (lookup(sec, "Type"@) matches Some(t) && t != "Application"@) {
        None
    } else if is_true(lookup(sec, "NoDisplay"@)) || is_true(lookup(sec, "Hidden"@)) {
        None
    } else {
        match (lookup(sec, "Name"@), lookup(sec, "Exec"@)) {
            (Some(name), Some(exec)) => {
                let exec_cmd = stripped_exec(exec);
                if exec_cmd.len() == 0 {
                    None
                } else {
                    Some(
                        AppView {
                            name,
                            exec_cmd,
                            desktop_id: id,
                            comment: match lookup(sec, "Comment"@) {
                                Some(c) => c,
                                None => seq![],
                            },
                            keywords: match lookup(sec, "Keywords"@) {
                                Some(k) => semicolons_to_spaces(k),
                                None => seq![],
                            },
                            icon: match lookup(sec, "Icon"@) {
                                Some(i) => i,
                                None => "application-x-executable"@,
                            },
                            terminal: is_true(lookup(sec, "Terminal"@)),
                        },
                    )
                }
            },
            _ => None,
        }
    }
}

/// The `[Desktop Entry]` lines of a file's lines.
fn entry_section(ls: &Vec<Vec<char>>) -> (r: Vec<Vec<char>>)
    ensures
        views(r@) == section_from(views(ls@), 0, false),
{
    let header = chars_of("[Desktop Entry]");
    let mut sec: Vec<Vec<char>> = Vec::new();
    let mut in_entry = false;
    let mut i: usize = 0;
    while i < ls.len()
        invariant
            i <= ls.len(),
            header@ == "[Desktop Entry]"@,
            views(sec@) + section_from(views(ls@), i as int, in_entry) == section_from(
                views(ls@),
                0,
                false,
            ),
        decreases ls.len() - i,
    {
        let line = &ls[i];
        assert(views(ls@)[i as int] == line@);
        let (a, b) = trim_bounds(line.as_slice());
        let t = string_of_range(line.as_slice(), a, b);
        let tv = chars_of(t.as_str());
        if same_chars(tv.as_slice(), header.as_slice()) {
            in_entry = true;
            i += 1;
            continue;
        }
        if line.len() > 0 && line[0] == '[' && in_entry {
            assert(section_from(views(ls@), i as int, in_entry) == Seq::<Seq<char>>::empty());
            assert(section_from(views(ls@), ls.len() as int, in_entry) == Seq::<Seq<char>>::empty());
            i = ls.len();
            continue;
        }
        if in_entry {
            let ghost before = views(sec@);
            sec.push(line.clone());
            proof {
                assert(views(sec@) =~= before.push(line@));
                assert(section_from(views(ls@), i as int, true) == seq![line@] + section_from(
                    views(ls@),
                    i + 1,
                    true,
                ));
                assert(views(sec@) + section_from(views(ls@), i + 1, true) =~= before
                    + section_from(views(ls@), i as int, true));
            }
        }
        i += 1;
    }
    assert(views(sec@) + section_from(views(ls@), i as int, in_entry) =~= views(sec@));
    sec
}

/// Exec form of [`entry_pair`].
fn pair_of(line: &Vec<char>) -> (r: Option<(Vec<char>, Vec<char>)>)
    ensures
        r matches Some(p) ==> entry_pair(line@) == Some((p.0@, p.1@)),
        r is None ==> entry_pair(line@) is None,
{
    let eq = chars_of("=");
    proof {
        reveal_strlit("=");
    }
    if line.len() == 0 || line[0] == '#' {
        return None;
    }
    match find_chars(line.as_slice(), eq.as_slice()) {
        None => None,
        Some(k) => {
            proof {
                lemma_find_from(line@, eq@, 0);
            }
            let (a, b) = trim_range(line.as_slice(), 0, k);
            let (c, d) = trim_range(line.as_slice(), k + 1, line.len());
            let mut key: Vec<char> = Vec::new();
            let mut j = a;
            while j < b
                invariant
                    a <= j <= b <= line.len(),
                    key@ == line@.subrange(a as int, j as int),
                decreases b - j,
            {
                key.push(line[j]);
                j += 1;
                assert(key@ == line@.subrange(a as int, j as int));
            }
            let mut val: Vec<char> = Vec::new();
            let mut j = c;
            while j < d
                invariant
                    c <= j <= d <= line.len(),
                    val@ == line@.subrange(c as int, j as int),
                decreases d - j,
            {
                val.push(line[j]);
                j += 1;
                assert(val@ == line@.subrange(c as int, j as int));
            }
            proof {
                assert(line@.subrange(0, k as int) == line@.take(k as int));
                assert(line@.subrange(k + 1, line@.len() as int) == line@.skip(k + 1));
            }
            Some((key, val))
        },
    }
}

/// Exec form of [`lookup`].
fn lookup_key(sec: &Vec<Vec<char>>, key: &str) -> (r: Option<Vec<char>>)
    ensures
        r matches Some(v) ==> lookup(views(sec@), key@) == Some(v@),
        r is None ==> lookup(views(sec@), key@) is None,
{
    let kv = chars_of(key);
    let mut i: usize = sec.len();
    assert(views(sec@).take(sec@.len() as int) =~= views(sec@));
    while i > 0
        invariant
            i <= sec.len(),
            kv@ == key@,
            lookup(views(sec@).take(i as int), key@) == lookup(views(sec@), key@),
        decreases i,
    {
        let ghost pre = views(sec@).take(i as int);
        assert(pre.last() == sec@[i - 1]@);
        assert(pre.drop_last() =~= views(sec@).take(i - 1));
        match pair_of(&sec[i - 1]) {
            Some((k, v)) => {
                if same_chars(k.as_slice(), kv.as_slice()) {
                    return Some(v);
                }
            },
            None => {},
        }
        i -= 1;
    }
    assert(views(sec@).take(0) =~= Seq::<Seq<char>>::empty());
    assert(views(sec@).take(sec@.len() as int) =~= views(sec@));
    None
}

fn is_true_value(v: &Option<Vec<char>>) -> (b: bool)
    ensures
        b == is_true(match v {
            Some(x) => Some(x@),
            None => None,
        }),
{
    let t = chars_of("true");
    match v {
        Some(x) => same_ignore_ascii_case(x.as_slice(), t.as_slice()),
        None => false,
    }
}

/// Parse the text of a `.desktop` file whose file name is `desktop_id`.
pub fn parse_desktop_entry(text: &str, desktop_id: &str) -> (r: Option<AppEntry>)
    ensures
        r matches Some(a) ==> desktop_entry(text@, desktop_id@) == Some(a@),
        r is None ==> desktop_entry(text@, desktop_id@) is None,
{
    let tv = chars_of(text);
    let header = chars_of("[Desktop Entry]");
    if !has_substring(tv.as_slice(), header.as_slice()) {
        return None;
    }
    let ls = split_lines(tv.as_slice());
    let sec = entry_section(&ls);
    let ghost s = views(sec@);
    assert(s == section_from(lines(text@), 0, false));
    let typ = lookup_key(&sec, "Type");
    if let Some(t) = &typ {
        let app = chars_of("Application");
        if !same_chars(t.as_slice(), app.as_slice()) {
            return None;
        }
    }
    let no_display = lookup_key(&sec, "NoDisplay");
    if is_true_value(&no_display) {
        return None;
    }
    let hidden = lookup_key(&sec, "Hidden");
    if is_true_value(&hidden) {
        return None;
    }
    let name = match lookup_key(&sec, "Name") {
        Some(n) => n,
        None => return None,
    };
    let exec_raw = match lookup_key(&sec, "Exec") {
        Some(e) => e,
        None => return None,
    };
    let raw = string_of(exec_raw.as_slice());
    let exec_cmd = strip_exec_codes(raw.as_str());
    if exec_cmd.unicode_len() == 0 {
        return None;
    }
    let comment = match lookup_key(&sec, "Comment") {
        Some(c) => string_of(c.as_slice()),
        None => String::new(),
    };
    let keywords = match lookup_key(&sec, "Keywords") {
        Some(k) => {
            let mut out = String::new();
            let mut j: usize = 0;
            while j < k.len()
                invariant
                    j <= k.len(),
                    out@ == semicolons_to_spaces(k@.take(j as int)),
                decreases k.len() - j,
            {
                let c = k[j];
                out.push(if c == ';' { ' ' } else { c });
                j += 1;
                assert(semicolons_to_spaces(k@.take(j as int)) =~= semicolons_to_spaces(
                    k@.take(j - 1),
                ).push(if k@[j - 1] == ';' { ' ' } else { k@[j - 1] }));
            }
            assert(k@.take(k@.len() as int) == k@);
            out
        },
        None => String::new(),
    };
    let icon = match lookup_key(&sec, "Icon") {
        Some(i) => string_of(i.as_slice()),
        None => String::from_str("application-x-executable"),
    };
    let term = lookup_key(&sec, "Terminal");
    let terminal = is_true_value(&term);
    let entry = AppEntry {
        name: string_of(name.as_slice()),
        exec_cmd,
        desktop_id: String::from_str(desktop_id),
        comment,
        keywords,
        icon,
        terminal,
    };
    proof {
        reveal_strlit("true");
    }
    Some(entry)
}

// ---------------------------------------------------------------- loading
/// A candidate `.desktop` file: its file name and, when it could be read, its text.
pub struct DesktopFile {
    pub name: String,
    pub text: Option<String>,
}

/// The `(name, text)` view of a candidate file.
pub open spec fn file_view(f: DesktopFile) -> (Seq<char>, Option<Seq<char>>) {
    (f.name@, match f.text {
        Some(t) => Some(t@),
        None => None,
    })
}

pub open spec fn file_views(s: Seq<DesktopFile>) -> Seq<(Seq<char>, Option<Seq<char>>)> {
    s.map_values(|f: DesktopFile| file_view(f))
}

/// Applications from candidate files in scan order: a file is skipped when an
/// application with its name was already taken, and taken when its text parses.
pub open spec fn gathered(files: Seq<(Seq<char>, Option<Seq<char>>)>) -> Seq<AppView>
    decreases files.len(),
{
    if files.len() == 0 {
        seq![]
    } else {
        let prev = gathered(files.drop_last());
        let f = files.last();
        if exists|i: int| 0 <= i < prev.len() && (#[trigger] prev[i]).desktop_id == f.0 {
            prev
        } else {
            match f.1 {
                Some(text) => match desktop_entry(text, f.0) {
                    Some(a) => prev.push(a),
                    None => prev,
                },
                None => prev,
            }
        }
    }
}

/// Applications paired with score 0, for ordering by lowercase name alone.
pub open spec fn unscored(s: Seq<AppView>) -> Seq<(i32, AppView)> {
    s.map_values(|a: AppView| (0i32, a))
}

/// Deduplicate, parse and sort candidate files (in directory priority order, each
/// directory's paths sorted): the first parsable file per name wins; the result is
/// ordered by lowercase name, ties in scan order.
pub fn collect_apps(files: Vec<DesktopFile>) -> (r: Vec<AppEntry>)
    ensures
        stable_sort_of(unscored(r@.map_values(|a: AppEntry| a@)), unscored(gathered(file_views(files@)))),
{
    let mut apps: Vec<AppEntry> = Vec::new();
    let mut i: usize = 0;
    while i < files.len()
        invariant
            i <= files.len(),
            apps@.map_values(|a: AppEntry| a@) == gathered(file_views(files@).take(i as int)),
        decreases files.len() - i,
    {
        let f = &files[i];
        let ghost fv = file_views(files@);
        let ghost prev = apps@.map_values(|a: AppEntry| a@);
        assert(fv.take(i + 1).drop_last() =~= fv.take(i as int));
        assert(fv.take(i + 1).last() == file_view(*f));
        let name = chars_of(f.name.as_str());
        let mut seen = false;
        let mut j: usize = 0;
        while j < apps.len()
            invariant
                j <= apps.len(),
                name@ == f.name@,
                prev == apps@.map_values(|a: AppEntry| a@),
                seen == exists|k: int| 0 <= k < j && (#[trigger] prev[k]).desktop_id == name@,
            decreases apps.len() - j,
        {
            let id = chars_of(apps[j].desktop_id.as_str());
            if same_chars(id.as_slice(), name.as_slice()) {
                seen = true;
            }
            proof {
                assert(prev[j as int] == apps@[j as int]@);
                if !seen {
                    assert forall|k: int| 0 <= k < j + 1 implies !((#[trigger] prev[k]).desktop_id == name@) by {
                        if k < j {
                        } else {
                            assert(prev[k] == apps@[j as int]@);
                        }
                    }
                }
            }
            j += 1;
        }
        if !seen {
            if let Some(text) = &f.text {
                if let Some(entry) = parse_desktop_entry(text.as_str(), f.name.as_str()) {
                    apps.push(entry);
                    assert(apps@.map_values(|a: AppEntry| a@) =~= prev.push(entry@));
                }
            }
        }
        i += 1;
    }
    assert(file_views(files@).take(files.len() as int) =~= file_views(files@));
    let mut items: Vec<(i32, Vec<char>, AppEntry)> = Vec::new();
    let mut k: usize = 0;
    let ghost all = apps@.map_values(|a: AppEntry| a@);
    while k < apps.len()
        invariant
            k <= apps.len(),
            all == apps@.map_values(|a: AppEntry| a@),
            keyed_views(items@) == unscored(all.take(k as int)),
            forall|j: int| 0 <= j < items.len() ==> keyed_ok(#[trigger] items@[j]),
        decreases apps.len() - k,
    {
        let low = to_lower(apps[k].name.as_str());
        let key = chars_of(low.as_str());
        let ghost before = keyed_views(items@);
        items.push((0i32, key, apps[k].clone()));
        assert(keyed_views(items@) =~= before.push((0i32, apps@[k as int]@)));
        assert(unscored(all.take(k + 1)) =~= unscored(all.take(k as int)).push((0i32, all[k as int])));
        k += 1;
    }
    assert(all.take(apps.len() as int) =~= all);
    let sorted = sort_by_rank(items);
    proof {
        crate::sorting::law_stable_sort_permutes(pair_views(sorted@), keyed_views(items@));
        assert forall|j: int| 0 <= j < sorted.len() implies (#[trigger] pair_views(sorted@)[j]).0 == 0 by {
            assert(pair_views(sorted@).contains(pair_views(sorted@)[j]));
            let x = pair_views(sorted@)[j];
            assert(keyed_views(items@).contains(x));
            let t = choose|t: int| 0 <= t < keyed_views(items@).len() && keyed_views(items@)[t] == x;
            assert(unscored(all)[t] == x);
        }
    }
    let mut out: Vec<AppEntry> = Vec::new();
    let mut m: usize = 0;
    while m < sorted.len()
        invariant
            m <= sorted.len(),
            unscored(out@.map_values(|a: AppEntry| a@)) == pair_views(sorted@).take(m as int),
            forall|j: int| 0 <= j < sorted.len() ==> (#[trigger] pair_views(sorted@)[j]).0 == 0,
        decreases sorted.len() - m,
    {
        let ghost before = out@.map_values(|a: AppEntry| a@);
        out.push(sorted[m].1.clone());
        proof {
            assert(out@.map_values(|a: AppEntry| a@) =~= before.push(sorted@[m as int].1@));
            assert(pair_views(sorted@)[m as int].0 == 0);
            assert(pair_views(sorted@)[m as int] == (0i32, sorted@[m as int].1@));
            assert(pair_views(sorted@).take(m + 1) =~= pair_views(sorted@).take(m as int).push(
                pair_views(sorted@)[m as int],
            ));
            assert(unscored(out@.map_values(|a: AppEntry| a@)) =~= unscored(before).push(
                (0i32, sorted@[m as int].1@),
            ));
        }
        m += 1;
    }
    assert(pair_views(sorted@).take(sorted.len() as int) =~= pair_views(sorted@));
    out
}

proof fn lemma_no_codes(s: Seq<char>, i: int)
    requires
        0 <= i <= s.len(),
        forall|k: int| 0 <= k < s.len() ==> s[k] != '%',
    ensures
        strip_codes_from(s, i) == s.skip(i),
    decreases s.len() - i,
{
    if i < s.len() {
        lemma_skip_ws_bounds(s, i);
        lemma_no_codes(s, i + 1);
        assert(s.skip(i) =~= seq![s[i]] + s.skip(i + 1));
    } else {
        assert(s.skip(i) =~= Seq::<char>::empty());
    }
}

/// An `Exec` line without `%` is only trimmed.
pub proof fn law_exec_without_codes_is_trimmed(s: Seq<char>)
    requires
        forall|k: int| 0 <= k < s.len() ==> s[k] != '%',
    ensures
        stripped_exec(s) == trim(s),
{
    lemma_no_codes(s, 0);
    assert(s.skip(0) =~= s);
}

/// Loading keeps one application per desktop id: the first file with a given name
/// that parses.
pub proof fn law_loaded_ids_distinct(files: Seq<(Seq<char>, Option<Seq<char>>)>)
    ensures
        forall|i: int, j: int|
            0 <= i < j < gathered(files).len() ==> (#[trigger] gathered(files)[i]).desktop_id != (#[trigger] gathered(files)[j]).desktop_id,
        forall|i: int| 0 <= i < gathered(files).len() ==> exists|k: int| 0 <= k < files.len() && (#[trigger] gathered(files)[i]).desktop_id == files[k].0,
    decreases files.len(),
{
    if files.len() > 0 {
        let p = files.drop_last();
        law_loaded_ids_distinct(p);
        let prev = gathered(p);
        let g = gathered(files);
        assert forall|i: int| 0 <= i < g.len() implies exists|k: int| 0 <= k < files.len() && (#[trigger] g[i]).desktop_id == files[k].0 by {
            if i < prev.len() {
                assert(g[i] == prev[i]);
                let k = choose|k: int| 0 <= k < p.len() && prev[i].desktop_id == p[k].0;
                assert(files[k] == p[k]);
            } else {
                assert(g[i].desktop_id == files.last().0);
                assert(files[files.len() - 1] == files.last());
            }
        }
        assert forall|i: int, j: int| 0 <= i < j < g.len() implies (#[trigger] g[i]).desktop_id != (#[trigger] g[j]).desktop_id by {
            if j < prev.len() {
                assert(g[i] == prev[i] && g[j] == prev[j]);
            } else {
                assert(g[i] == prev[i]);
            }
        }
    }
}

/// The application of the first candidate file named `n` that parses, in scan order.
pub open spec fn first_parsed(files: Seq<(Seq<char>, Option<Seq<char>>)>, n: Seq<char>) -> Option<AppView>
    decreases files.len(),
{
    if files.len() == 0 {
        None
    } else {
        match first_parsed(files.drop_last(), n) {
            Some(a) => Some(a),
            None => {
                let f = files.last();
                if f.0 == n && f.1 is Some && desktop_entry(f.1->0, n) is Some {
                    desktop_entry(f.1->0, n)
                } else {
                    None
                }
            },
        }
    }
}

/// An application with file name `n` is loaded exactly when some candidate file
/// named `n` parses, and it is the application of the first such file: an earlier
/// directory's copy overrides a later one, and an unparsable or hidden copy does
/// not hide a later one.
pub proof fn law_first_parsable_file_wins(files: Seq<(Seq<char>, Option<Seq<char>>)>, n: Seq<char>)
    ensures
        first_parsed(files, n) is Some <==> exists|i: int|
            0 <= i < gathered(files).len() && (#[trigger] gathered(files)[i]).desktop_id == n,
        forall|i: int|
            0 <= i < gathered(files).len() && (#[trigger] gathered(files)[i]).desktop_id == n ==> first_parsed(files, n)
                == Some(gathered(files)[i]),
    decreases files.len(),
{
    if files.len() > 0 {
        let p = files.drop_last();
        law_first_parsable_file_wins(p, n);
        let prev = gathered(p);
        let g = gathered(files);
        let f = files.last();
        if exists|i: int| 0 <= i < prev.len() && (#[trigger] prev[i]).desktop_id == f.0 {
            assert(g == prev);
            if first_parsed(p, n) is None && f.0 == n {
                let i = choose|i: int| 0 <= i < prev.len() && (#[trigger] prev[i]).desktop_id == f.0;
                assert(prev[i].desktop_id == n);
            }
        } else {
            if f.1 is Some && desktop_entry(f.1->0, f.0) is Some {
                let a = desktop_entry(f.1->0, f.0)->0;
                assert(g == prev.push(a));
                assert(a.desktop_id == f.0);
                assert(g[prev.len() as int] == a);
                if f.0 == n {
                    assert(first_parsed(p, n) is None);
                }
                assert forall|i: int| 0 <= i < g.len() && (#[trigger] g[i]).desktop_id == n implies first_parsed(
                    files,
                    n,
                ) == Some(g[i]) by {
                    if i < prev.len() {
                        assert(g[i] == prev[i]);
                    }
                }
                if exists|i: int| 0 <= i < g.len() && (#[trigger] g[i]).desktop_id == n {
                    let i = choose|i: int| 0 <= i < g.len() && (#[trigger] g[i]).desktop_id == n;
                    if i < prev.len() {
                        assert(g[i] == prev[i]);
                    }
                }
                if first_parsed(p, n) is Some {
                    let i = choose|i: int| 0 <= i < prev.len() && (#[trigger] prev[i]).desktop_id == n;
                    assert(g[i] == prev[i]);
                }
            } else {
                assert(g == prev);
            }
        }
    }
}

/// What loading returns: no desktop id twice, ordered by lowercase name, and each
/// application the one of the first parsable file with its name.
pub proof fn law_loaded_apps(files: Seq<(Seq<char>, Option<Seq<char>>)>, r: Seq<AppView>)
    requires
        stable_sort_of(unscored(r), unscored(gathered(files))),
    ensures
        forall|i: int, j: int| 0 <= i < j < r.len() ==> (#[trigger] r[i]).desktop_id != (#[trigger] r[j]).desktop_id,
        forall|i: int, j: int|
            0 <= i < j < r.len() ==> !crate::sorting::lex_lt(lowercase((#[trigger] r[j]).name), lowercase((#[trigger] r[i]).name)),
        forall|i: int| 0 <= i < r.len() ==> first_parsed(files, (#[trigger] r[i]).desktop_id) == Some(r[i]),
{
    let g = gathered(files);
    let ur = unscored(r);
    let ug = unscored(g);
    crate::sorting::law_stable_sort_permutes(ur, ug);
    law_loaded_ids_distinct(files);
    assert forall|i: int| 0 <= i < r.len() implies first_parsed(files, (#[trigger] r[i]).desktop_id) == Some(r[i]) by {
        assert(ur[i] == (0i32, r[i]));
        assert(ur.contains(ur[i]));
        assert(ug.contains(ur[i]));
        let k = choose|k: int| 0 <= k < ug.len() && ug[k] == ur[i];
        assert(g[k] == r[i]);
        law_first_parsable_file_wins(files, r[i].desktop_id);
    }
    assert forall|i: int, j: int| 0 <= i < j < r.len() implies (#[trigger] r[i]).desktop_id != (#[trigger] r[j]).desktop_id by {
        if r[i].desktop_id == r[j].desktop_id {
            assert(first_parsed(files, r[i].desktop_id) == Some(r[i]));
            assert(first_parsed(files, r[j].desktop_id) == Some(r[j]));
            assert(ur[i] == ur[j]);
            crate::sorting::lemma_count_two_positions(ur, i, j);
            assert forall|a: int, b: int| 0 <= a < b < ug.len() implies ug[a] != ug[b] by {
                assert(g[a].desktop_id != g[b].desktop_id);
            }
            crate::sorting::lemma_count_distinct(ug, ur[i]);
        }
    }
    assert forall|i: int, j: int|
        0 <= i < j < r.len() implies !crate::sorting::lex_lt(lowercase((#[trigger] r[j]).name), lowercase((#[trigger] r[i]).name)) by {
        crate::fuzzy::law_rank_descends(ur, ug, i, j);
        assert(ur[i] == (0i32, r[i]) && ur[j] == (0i32, r[j]));
    }
}

/// A `.desktop` entry is a terminal application exactly when its group sets
/// `Terminal` to `true` in any ASCII letter case; any other value (`false`, `0`,
/// `yes`, ...) or no `Terminal` key makes it a graphical one.
pub proof fn law_terminal_flag(text: Seq<char>, id: Seq<char>)
    ensures
        desktop_entry(text, id) matches Some(a) ==> (a.terminal <==> (lookup(
            section_from(lines(text), 0, false),
            "Terminal"@,
        ) matches Some(v) && v.len() == 4 && ascii_lower(v[0]) == 't' && ascii_lower(v[1]) == 'r'
            && ascii_lower(v[2]) == 'u' && ascii_lower(v[3]) == 'e')),
{
    reveal_strlit("true");
    let t = "true"@;
    assert(ascii_lower(t[0]) == 't' && ascii_lower(t[1]) == 'r' && ascii_lower(t[2]) == 'u'
        && ascii_lower(t[3]) == 'e');
    if let Some(v) = lookup(section_from(lines(text), 0, false), "Terminal"@) {
        if v.len() == 4 && ascii_lower(v[0]) == 't' && ascii_lower(v[1]) == 'r' && ascii_lower(v[2])
            == 'u' && ascii_lower(v[3]) == 'e' {
            assert forall|i: int| 0 <= i < v.len() implies ascii_lower(#[trigger] v[i]) == ascii_lower(t[i]) by {
                if i == 0 {
                } else if i == 1 {
                } else if i == 2 {
                } else {
                }
            }
        }
    }
}

/// After the command, at `i`: the rest of the command, whose last character is not
/// whitespace, followed by ` %X` for a field code `X`.
proof fn lemma_code_at_end(c: Seq<char>, x: char, i: int)
    requires
        c.len() > 0,
        !is_ws(c.last()),
        forall|k: int| 0 <= k < c.len() ==> c[k] != '%',
        is_field_code(x),
        0 <= i <= c.len(),
    ensures
        strip_codes_from(c + seq![' ', '%', x], i) == c.subrange(i, c.len() as int),
    decreases c.len() - i,
{
    let s = c + seq![' ', '%', x];
    let n = c.len() as int;
    lemma_skip_ws_bounds(s, i);
    let j = skip_ws_from(s, i);
    assert(s[n] == ' ' && s[n + 1] == '%' && s[n + 2] == x);
    assert(!is_ws('%'));
    if i == n {
        assert(is_ws(s[n]));
        assert(skip_ws_from(s, n + 1) == n + 1);
        assert(j == n + 1);
        assert(strip_codes_from(s, n + 3) == Seq::<char>::empty());
        assert(c.subrange(n, n) =~= Seq::<char>::empty());
    } else {
        if j >= n {
            assert(s[n - 1] == c.last());
            assert(is_ws(s[n - 1]));
        }
        assert(s[j] == c[j]);
        lemma_code_at_end(c, x, i + 1);
        assert(c.subrange(i, n) =~= seq![c[i]] + c.subrange(i + 1, n));
    }
}

/// The field codes `%f %F %u %U %d %D %n %N %i %c %k %v %m` are dropped from `Exec`,
/// with the space before them: a command without `%` that does not end in
/// whitespace, followed by ` %X` for any of them, becomes the trimmed command.
pub proof fn law_field_code_dropped(c: Seq<char>, x: char)
    requires
        c.len() > 0,
        !is_ws(c.last()),
        forall|k: int| 0 <= k < c.len() ==> c[k] != '%',
        x == 'f' || x == 'F' || x == 'u' || x == 'U' || x == 'd' || x == 'D' || x == 'n' || x == 'N'
            || x == 'i' || x == 'c' || x == 'k' || x == 'v' || x == 'm',
    ensures
        stripped_exec(c + seq![' ', '%', x]) == trim(c),
{
    lemma_code_at_end(c, x, 0);
    assert(c.subrange(0, c.len() as int) =~= c);
}

proof fn lemma_no_field_code(s: Seq<char>, i: int)
    requires
        0 <= i <= s.len(),
        forall|k: int| 0 <= k < s.len() - 1 && s[k] == '%' ==> !is_field_code(#[trigger] s[k + 1]),
    ensures
        strip_codes_from(s, i) == s.skip(i),
    decreases s.len() - i,
{
    if i < s.len() {
        lemma_skip_ws_bounds(s, i);
        lemma_no_field_code(s, i + 1);
        assert(s.skip(i) =~= seq![s[i]] + s.skip(i + 1));
    } else {
        assert(s.skip(i) =~= Seq::<char>::empty());
    }
}

/// Any other `%` sequence is kept: a command without `%` followed by ` %X` for a
/// character `X` other than those codes is only trimmed.
pub proof fn law_other_percent_kept(c: Seq<char>, x: char)
    requires
        forall|k: int| 0 <= k < c.len() ==> c[k] != '%',
        !(x == 'f' || x == 'F' || x == 'u' || x == 'U' || x == 'd' || x == 'D' || x == 'n' || x == 'N'
            || x == 'i' || x == 'c' || x == 'k' || x == 'v' || x == 'm'),
    ensures
        stripped_exec(c + seq![' ', '%', x]) == trim(c + seq![' ', '%', x]),
{
    let s = c + seq![' ', '%', x];
    let n = c.len() as int;
    assert forall|k: int| 0 <= k < s.len() - 1 && s[k] == '%' implies !is_field_code(#[trigger] s[k + 1]) by {
        if k < n {
            assert(s[k] == c[k]);
        } else if k == n {
            assert(s[k] == ' ');
        } else {
            assert(k == n + 1);
            assert(s[k + 1] == x);
        }
    }
    lemma_no_field_code(s, 0);
    assert(s.skip(0) =~= s);
}

} // verus!
