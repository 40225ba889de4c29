//! Character-level text model shared by the launcher's parsers.
//!
//! Strings are specified by their `Seq<char>` views. Whitespace is the Unicode
//! `White_Space` property (what `char::is_whitespace`, `str::trim` and
//! `str::split_whitespace` use); byte lengths and byte offsets are UTF-8 ones.
use vstd::prelude::*;

verus! {

pub assume_specification[ String::push ](s: &mut String, ch: char)
    ensures
        final(s)@ == old(s)@.push(ch),
;

/// Name for what `str::to_lowercase` returns: the Unicode lowercase mapping
/// of a whole string (with its final-sigma rule), which takes tables to state.
pub uninterp spec fn lowercase(s: Seq<char>) -> Seq<char>;

/// Wraps `str::to_lowercase`. Claims only that the result is the value named
/// `lowercase` of the argument's characters; nothing about what that mapping is.
#[verifier::external_body]
pub(crate) fn to_lower(s: &str) -> (r: String)
    ensures
        r@ == lowercase(s@),
{
    s.to_lowercase()
}

// ---------------------------------------------------------------- whitespace
/// The Unicode `White_Space` property.
pub open spec fn is_ws(c: char) -> bool {
    let u = c as u32;
    ||| 9 <= u <= 13
    ||| u == 32
    ||| u == 0x85
    ||| u == 0xa0
    ||| u == 0x1680
    ||| 0x2000 <= u <= 0x200a
    ||| u == 0x2028
    ||| u == 0x2029
    ||| u == 0x202f
    ||| u == 0x205f
    ||| u == 0x3000
}

/// Whether `c` has the Unicode `White_Space` property.
pub fn is_whitespace(c: char) -> (b: bool)
    ensures
        b == is_ws(c),
{
    let u = c as u32;
    (9 <= u && u <= 13) || u == 32 || u == 0x85 || u == 0xa0 || u == 0x1680 || (0x2000 <= u
        && u <= 0x200a) || u == 0x2028 || u == 0x2029 || u == 0x202f || u == 0x205f || u == 0x3000
}

/// Index of the first non-whitespace character at or after `i`.
pub open spec fn skip_ws_from(s: Seq<char>, i: int) -> int
    decreases s.len() - i,
{
    if 0 <= i < s.len() && is_ws(s[i]) {
        skip_ws_from(s, i + 1)
    } else {
        i
    }
}

/// End of `s.take(j)` once trailing whitespace is dropped.
pub open spec fn back_ws_from(s: Seq<char>, j: int) -> int
    decreases j,
{
    if 0 < j <= s.len() && is_ws(s[j - 1]) {
        back_ws_from(s, j - 1)
    } else {
        j
    }
}

/// `str::trim_start`.
pub open spec fn trim_start(s: Seq<char>) -> Seq<char> {
    s.skip(skip_ws_from(s, 0))
}

/// `str::trim_end`.
pub open spec fn trim_end(s: Seq<char>) -> Seq<char> {
    s.take(back_ws_from(s, s.len() as int))
}

/// `str::trim`.
pub open spec fn trim(s: Seq<char>) -> Seq<char> {
    trim_end(trim_start(s))
}

pub proof fn lemma_skip_ws_bounds(s: Seq<char>, i: int)
    requires
        0 <= i <= s.len(),
    ensures
        i <= skip_ws_from(s, i) <= s.len(),
        forall|k: int| i <= k < skip_ws_from(s, i) ==> is_ws(#[trigger] s[k]),
        skip_ws_from(s, i) < s.len() ==> !is_ws(s[skip_ws_from(s, i)]),
    decreases s.len() - i,
{
    if i < s.len() && is_ws(s[i]) {
        lemma_skip_ws_bounds(s, i + 1);
    }
}

pub proof fn lemma_back_ws_bounds(s: Seq<char>, j: int)
    requires
        0 <= j <= s.len(),
    ensures
        0 <= back_ws_from(s, j) <= j,
        forall|k: int| back_ws_from(s, j) <= k < j ==> is_ws(#[trigger] s[k]),
        back_ws_from(s, j) > 0 ==> !is_ws(s[back_ws_from(s, j) - 1]),
    decreases j,
{
    if j > 0 && is_ws(s[j - 1]) {
        lemma_back_ws_bounds(s, j - 1);
    }
}

/// Trimming a trimmed string changes nothing.
pub proof fn lemma_trim_idempotent(s: Seq<char>)
    ensures
        trim(trim(s)) == trim(s),
{
    let t = trim(s);
    lemma_skip_ws_bounds(s, 0);
    let ts = trim_start(s);
    lemma_back_ws_bounds(ts, ts.len() as int);
    if t.len() > 0 {
        assert(t[0] == ts[0]);
        assert(ts[0] == s[skip_ws_from(s, 0)]);
        assert(t[t.len() - 1] == ts[back_ws_from(ts, ts.len() as int) - 1]);
        assert(skip_ws_from(t, 0) == 0);
        assert(trim_start(t) =~= t);
        assert(back_ws_from(t, t.len() as int) == t.len());
        assert(trim_end(t) =~= t);
    } else {
        assert(trim_start(t) =~= t);
        assert(trim_end(t) =~= t);
    }
}

/// Bounds `(a, b)` of `trim(v)` inside `v`.
pub fn trim_bounds(v: &[char]) -> (r: (usize, usize))
    ensures
        r.0 <= r.1 <= v@.len(),
        v@.subrange(r.0 as int, r.1 as int) == trim(v@),
        r.0 as int == skip_ws_from(v@, 0),
{
    let mut a: usize = 0;
    while a < v.len() && is_whitespace(v[a])
        invariant
            a <= v.len(),
            skip_ws_from(v@, a as int) == skip_ws_from(v@, 0),
        decreases v.len() - a,
    {
        a += 1;
    }
    let ghost t = v@.skip(a as int);
    let mut b: usize = v.len();
    while b > a && is_whitespace(v[b - 1])
        invariant
            a <= b <= v.len(),
            t == v@.skip(a as int),
            back_ws_from(t, b - a) == back_ws_from(t, t.len() as int),
        decreases b,
    {
        assert(t[b - a - 1] == v@[b - 1]);
        b -= 1;
    }
    proof {
        if b > a {
            assert(t[b - a - 1] == v@[b - 1]);
        }
        assert(trim_start(v@) == t);
        assert(trim(v@) == t.take(b - a));
        assert(t.take(b - a) =~= v@.subrange(a as int, b as int));
    }
    (a, b)
}

/// Index where `trim_start(v)` begins.
pub fn trim_start_index(v: &[char]) -> (a: usize)
    ensures
        a as int == skip_ws_from(v@, 0),
        a <= v@.len(),
        v@.skip(a as int) == trim_start(v@),
{
    let mut a: usize = 0;
    while a < v.len() && is_whitespace(v[a])
        invariant
            a <= v.len(),
            skip_ws_from(v@, a as int) == skip_ws_from(v@, 0),
        decreases v.len() - a,
    {
        a += 1;
    }
    a
}

// ---------------------------------------------------------------- conversions
/// The characters of `s`, in order.
pub fn chars_of(s: &str) -> (v: Vec<char>)
    ensures
        v@ == s@,
{
    let mut v: Vec<char> = Vec::new();
    for c in it: s.chars()
        invariant
            v@ == it.seq().take(it.index() as int),
            it.seq() == s@,
    {
        v.push(c);
    }
    v
}

/// A `String` holding exactly `v`.
pub fn string_of(v: &[char]) -> (s: String)
    ensures
        s@ == v@,
{
    let mut s = String::new();
    let mut i: usize = 0;
    while i < v.len()
        invariant
            i <= v.len(),
            s@ == v@.take(i as int),
        decreases v.len() - i,
    {
        s.push(v[i]);
        i += 1;
        assert(v@.take(i as int) == v@.take(i - 1).push(v@[i - 1]));
    }
    assert(v@.take(v.len() as int) == v@);
    s
}

/// A `String` holding `v.subrange(a, b)`.
pub fn string_of_range(v: &[char], a: usize, b: usize) -> (s: String)
    requires
        a <= b <= v@.len(),
    ensures
        s@ == v@.subrange(a as int, b as int),
{
    let mut s = String::new();
    let mut i: usize = a;
    while i < b
        invariant
            a <= i <= b <= v.len(),
            s@ == v@.subrange(a as int, i as int),
        decreases b - i,
    {
        s.push(v[i]);
        i += 1;
        assert(v@.subrange(a as int, i as int) == v@.subrange(a as int, i - 1).push(v@[i - 1]));
    }
    s
}

/// Appends the characters of `v` to `s`.
pub fn push_all(s: &mut String, v: &[char])
    ensures
        final(s)@ == old(s)@ + v@,
{
    let mut i: usize = 0;
    while i < v.len()
        invariant
            i <= v.len(),
            s@ == old(s)@ + v@.take(i as int),
        decreases v.len() - i,
    {
        s.push(v[i]);
        i += 1;
        assert(v@.take(i as int) == v@.take(i - 1).push(v@[i - 1]));
    }
    assert(v@.take(v.len() as int) == v@);
}

/// Appends the characters of `t` to `s`.
pub fn push_str(s: &mut String, t: &str)
    ensures
        final(s)@ == old(s)@ + t@,
{
    let v = chars_of(t);
    push_all(s, v.as_slice());
}

/// Whether two character sequences are equal.
pub fn same_chars(a: &[char], b: &[char]) -> (r: bool)
    ensures
        r == (a@ == b@),
{
    if a.len() != b.len() {
        return false;
    }
    let mut i: usize = 0;
    while i < a.len()
        invariant
            i <= a.len(),
            a.len() == b.len(),
            forall|k: int| 0 <= k < i ==> a@[k] == b@[k],
        decreases a.len() - i,
    {
        if a[i] != b[i] {
            return false;
        }
        i += 1;
    }
    assert(a@ =~= b@);
    true
}

// ---------------------------------------------------------------- prefixes and search
/// `s` starts with `p` at position `i`.
pub open spec fn occurs_at(s: Seq<char>, p: Seq<char>, i: int) -> bool {
    0 <= i && i + p.len() <= s.len() && s.subrange(i, i + p.len()) == p
}

/// `str::starts_with` for a string pattern.
pub open spec fn starts_with(s: Seq<char>, p: Seq<char>) -> bool {
    occurs_at(s, p, 0)
}

/// `str::contains` for a string pattern.
pub open spec fn contains(s: Seq<char>, p: Seq<char>) -> bool {
    exists|i: int| occurs_at(s, p, i)
}

/// First match of `p` in `s` at or after `i` (`str::find` counts from 0).
pub open spec fn find_from(s: Seq<char>, p: Seq<char>, i: int) -> Option<int>
    decreases s.len() + 1 - i,
{
    if i < 0 || i + p.len() > s.len() {
        None
    } else if occurs_at(s, p, i) {
        Some(i)
    } else {
        find_from(s, p, i + 1)
    }
}

pub proof fn lemma_find_from(s: Seq<char>, p: Seq<char>, i: int)
    requires
        0 <= i,
    ensures
        find_from(s, p, i) matches Some(k) ==> i <= k && occurs_at(s, p, k) && forall|j: int|
            i <= j < k ==> !occurs_at(s, p, j),
        find_from(s, p, i) is None ==> forall|j: int| i <= j ==> !occurs_at(s, p, j),
        i == 0 ==> (find_from(s, p, i) is Some <==> contains(s, p)),
    decreases s.len() + 1 - i,
{
    if i + p.len() > s.len() {
    } else if occurs_at(s, p, i) {
    } else {
        lemma_find_from(s, p, i + 1);
    }
    if i == 0 && find_from(s, p, i) is None && contains(s, p) {
        let j = choose|j: int| occurs_at(s, p, j);
        assert(!occurs_at(s, p, j));
    }
}

/// Whether `p` occurs in `s` at `i`.
pub fn matches_at(s: &[char], p: &[char], i: usize) -> (r: bool)
    ensures
        r == occurs_at(s@, p@, i as int),
{
    if i > s.len() || p.len() > s.len() - i {
        return false;
    }
    let mut k: usize = 0;
    while k < p.len()
        invariant
            k <= p.len(),
            i + p.len() <= s.len(),
            forall|j: int| 0 <= j < k ==> s@[i + j] == p@[j],
        decreases p.len() - k,
    {
        if s[i + k] != p[k] {
            return false;
        }
        k += 1;
    }
    assert(s@.subrange(i as int, i + p.len()) =~= p@);
    true
}

/// `str::find`, counted in characters.
pub fn find_chars(s: &[char], p: &[char]) -> (r: Option<usize>)
    ensures
        r matches Some(k) ==> find_from(s@, p@, 0) == Some(k as int),
        r is None ==> find_from(s@, p@, 0) is None,
        r is Some <==> contains(s@, p@),
{
    proof {
        lemma_find_from(s@, p@, 0);
    }
    if p.len() > s.len() {
        return None;
    }
    let last = s.len() - p.len();
    let mut i: usize = 0;
    while i <= last
        invariant
            p.len() <= s.len(),
            last == s.len() - p.len(),
            i <= last + 1,
            find_from(s@, p@, i as int) == find_from(s@, p@, 0),
        decreases last + 1 - i,
    {
        if matches_at(s, p, i) {
            return Some(i);
        }
        if i == last {
            assert(find_from(s@, p@, i + 1) is None);
            proof {
                lemma_find_from(s@, p@, 0);
            }
            return None;
        }
        i += 1;
    }
    None
}

/// `str::starts_with`.
pub fn has_prefix(s: &[char], p: &[char]) -> (r: bool)
    ensures
        r == starts_with(s@, p@),
{
    matches_at(s, p, 0)
}

/// `str::contains`.
pub fn has_substring(s: &[char], p: &[char]) -> (r: bool)
    ensures
        r == contains(s@, p@),
{
    find_chars(s, p).is_some()
}

// ---------------------------------------------------------------- UTF-8 lengths
/// `char::len_utf8`.
pub open spec fn char_width(c: char) -> nat {
    let u = c as u32;
    if u < 0x80 {
        1
    } else if u < 0x800 {
        2
    } else if u < 0x10000 {
        3
    } else {
        4
    }
}

/// Length in UTF-8 bytes (`str::len`).
pub open spec fn utf8_len(s: Seq<char>) -> nat
    decreases s.len(),
{
    if s.len() == 0 {
        0
    } else {
        utf8_len(s.drop_last()) + char_width(s.last())
    }
}

pub proof fn lemma_utf8_len_take(s: Seq<char>, i: int)
    requires
        0 <= i <= s.len(),
    ensures
        utf8_len(s.take(i)) <= utf8_len(s),
        i <= utf8_len(s.take(i)),
    decreases s.len() - i,
{
    lemma_utf8_len_ge_len(s.take(i));
    if i < s.len() {
        lemma_utf8_len_take(s, i + 1);
        assert(s.take(i + 1).drop_last() == s.take(i));
    } else {
        assert(s.take(i) == s);
    }
}

pub proof fn lemma_utf8_len_ge_len(s: Seq<char>)
    ensures
        s.len() <= utf8_len(s),
    decreases s.len(),
{
    if s.len() > 0 {
        lemma_utf8_len_ge_len(s.drop_last());
    }
}

/// `char::len_utf8`.
pub fn width_of(c: char) -> (w: usize)
    ensures
        w == char_width(c),
{
    let u = c as u32;
    if u < 0x80 {
        1
    } else if u < 0x800 {
        2
    } else if u < 0x10000 {
        3
    } else {
        4
    }
}

/// UTF-8 length of `v.take(n)`, or `None` when it exceeds `usize::MAX`.
pub fn utf8_len_of_prefix(v: &[char], n: usize) -> (r: Option<usize>)
    requires
        n <= v@.len(),
    ensures
        r matches Some(l) ==> l == utf8_len(v@.take(n as int)),
        r is None ==> utf8_len(v@.take(n as int)) > usize::MAX,
{
    let mut total: usize = 0;
    let mut i: usize = 0;
    while i < n
        invariant
            i <= n <= v.len(),
            total == utf8_len(v@.take(i as int)),
        decreases n - i,
    {
        let w = width_of(v[i]);
        assert(v@.take(i + 1).drop_last() == v@.take(i as int));
        if total > usize::MAX - w {
            proof {
                lemma_utf8_len_take(v@.take(n as int), i + 1);
                assert(v@.take(n as int).take(i + 1) == v@.take(i + 1));
            }
            return None;
        }
        total = total + w;
        i += 1;
    }
    Some(total)
}

/// UTF-8 length of `v`, or `None` when it exceeds `usize::MAX`.
pub fn utf8_len_of(v: &[char]) -> (r: Option<usize>)
    ensures
        r matches Some(l) ==> l == utf8_len(v@),
        r is None ==> utf8_len(v@) > usize::MAX,
{
    assert(v@.take(v@.len() as int) == v@);
    utf8_len_of_prefix(v, v.len())
}

// ---------------------------------------------------------------- ASCII case folding
/// `u8::to_ascii_lowercase` lifted to characters.
pub open spec fn ascii_lower(c: char) -> char {
    if 'A' <= c <= 'Z' {
        ((c as u32) + 32) as char
    } else {
        c
    }
}

/// `str::eq_ignore_ascii_case`.
pub open spec fn eq_ignore_ascii_case(a: Seq<char>, b: Seq<char>) -> bool {
    a.len() == b.len() && forall|i: int| 0 <= i < a.len() ==> ascii_lower(#[trigger] a[i]) == ascii_lower(b[i])
}

pub fn to_ascii_lower(c: char) -> (r: char)
    ensures
        r == ascii_lower(c),
{
    if 'A' <= c && c <= 'Z' {
        let u = (c as u32) + 32;
        assert(0x61 <= u <= 0x7a);
        char_from_ascii(u)
    } else {
        c
    }
}

/// The character with ASCII code `u`.
fn char_from_ascii(u: u32) -> (c: char)
    requires
        u < 0x80,
    ensures
        c as u32 == u,
        c == u as char,
{
    let b = u as u8;
    b as char
}

/// Whether `a` and `b` are equal up to ASCII case.
pub fn same_ignore_ascii_case(a: &[char], b: &[char]) -> (r: bool)
    ensures
        r == eq_ignore_ascii_case(a@, b@),
{
    if a.len() != b.len() {
        return false;
    }
    let mut i: usize = 0;
    while i < a.len()
        invariant
            i <= a.len(),
            a.len() == b.len(),
            forall|k: int| 0 <= k < i ==> ascii_lower(#[trigger] a@[k]) == ascii_lower(b@[k]),
        decreases a.len() - i,
    {
        if to_ascii_lower(a[i]) != to_ascii_lower(b[i]) {
            return false;
        }
        i += 1;
    }
    true
}

// ---------------------------------------------------------------- ranges
/// Bounds `(a, b)` of `trim(v.subrange(lo, hi))` inside `v`.
pub fn trim_range(v: &[char], lo: usize, hi: usize) -> (r: (usize, usize))
    requires
        lo <= hi <= v@.len(),
    ensures
        lo <= r.0 <= r.1 <= hi,
        v@.subrange(r.0 as int, r.1 as int) == trim(v@.subrange(lo as int, hi as int)),
{
    let ghost w = v@.subrange(lo as int, hi as int);
    let mut a: usize = lo;
    while a < hi && is_whitespace(v[a])
        invariant
            lo <= a <= hi <= v.len(),
            w == v@.subrange(lo as int, hi as int),
            skip_ws_from(w, a - lo) == skip_ws_from(w, 0),
        decreases hi - a,
    {
        assert(w[a - lo] == v@[a as int]);
        a += 1;
    }
    proof {
        if a < hi {
            assert(w[a - lo] == v@[a as int]);
        }
    }
    let ghost t = w.skip(a - lo);
    let mut b: usize = hi;
    while b > a && is_whitespace(v[b - 1])
        invariant
            lo <= a <= b <= hi <= v.len(),
            w == v@.subrange(lo as int, hi as int),
            t == w.skip(a - lo),
            back_ws_from(t, b - a) == back_ws_from(t, t.len() as int),
        decreases b,
    {
        assert(t[b - a - 1] == v@[b - 1]);
        b -= 1;
    }
    proof {
        if b > a {
            assert(t[b - a - 1] == v@[b - 1]);
        }
        assert(trim_start(w) == t);
        assert(trim(w) == t.take(b - a));
        assert(t.take(b - a) =~= v@.subrange(a as int, b as int));
    }
    (a, b)
}

// ---------------------------------------------------------------- lines
/// The character views of a sequence of character vectors.
pub open spec fn views(v: Seq<Vec<char>>) -> Seq<Seq<char>> {
    v.map_values(|l: Vec<char>| l@)
}

/// `t` without one trailing carriage return.
pub open spec fn strip_cr(t: Seq<char>) -> Seq<char> {
    if t.len() > 0 && t.last() == '\r' {
        t.drop_last()
    } else {
        t
    }
}

/// Lines of `s` (`str::lines`) while scanning from `i`, the current line starting at `start`.
pub open spec fn lines_from(s: Seq<char>, start: int, i: int) -> Seq<Seq<char>>
    decreases s.len() - i,
{
    if i < 0 || i >= s.len() {
        if 0 <= start < s.len() {
            seq![s.subrange(start, s.len() as int)]
        } else {
            seq![]
        }
    } else if s[i] == '\n' {
        seq![strip_cr(s.subrange(start, i))] + lines_from(s, i + 1, i + 1)
    } else {
        lines_from(s, start, i + 1)
    }
}

/// `str::lines`: split after each line feed; the line feed, and a carriage return
/// right before it, are dropped; a final line feed does not start an empty line.
pub open spec fn lines(s: Seq<char>) -> Seq<Seq<char>> {
    lines_from(s, 0, 0)
}

/// The lines of `v` (`str::lines`).
pub fn split_lines(v: &[char]) -> (r: Vec<Vec<char>>)
    ensures
        views(r@) == lines(v@),
{
    let mut out: Vec<Vec<char>> = Vec::new();
    let mut start: usize = 0;
    let mut i: usize = 0;
    while i < v.len()
        invariant
            start <= i <= v.len(),
            views(out@) + lines_from(v@, start as int, i as int) == lines(v@),
        decreases v.len() - i,
    {
        if v[i] == '\n' {
            let mut end = i;
            if end > start && v[end - 1] == '\r' {
                end = end - 1;
            }
            let mut line: Vec<char> = Vec::new();
            let mut k = start;
            while k < end
                invariant
                    start <= k <= end <= i < v.len(),
                    line@ == v@.subrange(start as int, k as int),
                decreases end - k,
            {
                line.push(v[k]);
                k += 1;
                assert(line@ == v@.subrange(start as int, k as int));
            }
            proof {
                let piece = v@.subrange(start as int, i as int);
                assert(strip_cr(piece) == v@.subrange(start as int, end as int));
                let ghost before = views(out@);
                assert(lines_from(v@, start as int, i as int) == seq![strip_cr(piece)]
                    + lines_from(v@, i + 1, i + 1));
            }
            let ghost before = views(out@);
            out.push(line);
            proof {
                assert(views(out@) =~= before.push(v@.subrange(start as int, end as int)));
                assert(before + lines_from(v@, start as int, i as int) == views(out@)
                    + lines_from(v@, i + 1, i + 1));
            }
            start = i + 1;
        }
        i += 1;
    }
    if start < v.len() {
        let mut line: Vec<char> = Vec::new();
        let mut k = start;
        while k < v.len()
            invariant
                start <= k <= v.len(),
                line@ == v@.subrange(start as int, k as int),
            decreases v.len() - k,
        {
            line.push(v[k]);
            k += 1;
            assert(line@ == v@.subrange(start as int, k as int));
        }
        let ghost before = views(out@);
        out.push(line);
        assert(views(out@) =~= before.push(v@.subrange(start as int, v.len() as int)));
    }
    out
}

} // verus!
