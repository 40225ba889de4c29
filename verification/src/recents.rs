//! Launch counts and timestamps, and the ranking bonus they give.
use vstd::prelude::*;
use vstd::string::*;

use crate::text::{chars_of, same_chars};

verus! {

/// How often and when an application was last launched.
#[derive(Clone, Copy, PartialEq, Eq, Structural, Debug)]
pub struct RecentEntry {
    pub count: u32,
    pub last_used: u64,
}

impl Default for RecentEntry {
    fn default() -> (r: Self)
        ensures
            r.count == 0 && r.last_used == 0,
    {
        RecentEntry { count: 0, last_used: 0 }
    }
}

/// Launch history, by desktop id: `(id, entry)` pairs, no id twice (vstd specifies
/// `HashMap` only for key types that obey its key model, which `String` does not).
#[derive(Debug)]
pub struct Recents {
    entries: Vec<(String, RecentEntry)>,
}

/// No desktop id is listed twice.
pub open spec fn distinct_ids(s: Seq<(String, RecentEntry)>) -> bool {
    forall|i: int, j: int| 0 <= i < j < s.len() ==> (#[trigger] s[i]).0@ != (#[trigger] s[j]).0@
}

/// The entry recorded for `id` (the first one listed for it).
pub open spec fn entry_in(s: Seq<(String, RecentEntry)>, id: Seq<char>) -> Option<RecentEntry>
    decreases s.len(),
{
    if s.len() == 0 {
        None
    } else if s[0].0@ == id {
        Some(s[0].1)
    } else {
        entry_in(s.drop_first(), id)
    }
}

impl View for Recents {
    type V = Map<Seq<char>, RecentEntry>;

    closed spec fn view(&self) -> Map<Seq<char>, RecentEntry> {
        Map::new(
            |k: Seq<char>| entry_in(self.entries@, k) is Some,
            |k: Seq<char>| entry_in(self.entries@, k)->0,
        )
    }
}

/// Count with one more launch (saturating at `u32::MAX`).
pub open spec fn bumped(count: u32) -> u32 {
    if count == u32::MAX {
        u32::MAX
    } else {
        (count + 1) as u32
    }
}

/// The history after launching `id` at time `now`; an empty id records nothing.
pub open spec fn recorded(m: Map<Seq<char>, RecentEntry>, id: Seq<char>, now: u64) -> Map<
    Seq<char>,
    RecentEntry,
> {
    if id.len() == 0 {
        m
    } else {
        let count = if m.contains_key(id) {
            m[id].count
        } else {
            0
        };
        m.insert(id, RecentEntry { count: bumped(count), last_used: now })
    }
}

/// Recency part of the bonus for an entry last used `age` seconds ago.
pub open spec fn recency(age: int, count: u32) -> int {
    if age < 3600 {
        50
    } else if age < 86400 {
        30
    } else if age < 604800 {
        15
    } else if count > 0 {
        5
    } else {
        0
    }
}

/// The launch count read as an `i32` (`count as i32`: counts from 2^31 up wrap to
/// negative values).
pub open spec fn signed_count(count: u32) -> int {
    if count < 2147483648 {
        count as int
    } else {
        count - 4294967296
    }
}

/// Count part of the bonus: `min(20 * count as i32, 200)`.
pub open spec fn count_bonus(count: u32) -> int {
    if 20 * signed_count(count) > 200 {
        200
    } else {
        20 * signed_count(count)
    }
}

/// Ranking bonus of `id` at time `now`: `min(20 * (count as i32), 200)` plus recency
/// (age counted with saturating subtraction); 0 for ids never launched.
pub open spec fn bonus_value(m: Map<Seq<char>, RecentEntry>, id: Seq<char>, now: u64) -> int {
    if !m.contains_key(id) {
        0
    } else {
        let e = m[id];
        let count_bonus = count_bonus(e.count);
        let age = if now >= e.last_used {
            now - e.last_used
        } else {
            0
        };
        count_bonus + recency(age, e.count)
    }
}

/// The bonus of `id` can be computed in `i32`: `20 * (count as i32)` does not
/// overflow.
pub open spec fn bonus_in_range(m: Map<Seq<char>, RecentEntry>, id: Seq<char>) -> bool {
    m.contains_key(id) ==> (m[id].count <= 107374182 || m[id].count >= 4187593114)
}

/// Seconds since the Unix epoch, or 0 when the clock is before it. Wraps
/// `SystemTime::now` / `duration_since` / `as_secs`; nothing is claimed of the value.
#[verifier::external_body]
pub(crate) fn now_secs() -> u64 {
    std::time::SystemTime::now().duration_since(std::time::UNIX_EPOCH).map(|d| d.as_secs()).unwrap_or(0)
}

impl Default for Recents {
    fn default() -> (r: Self)
        ensures
            r@ == Map::<Seq<char>, RecentEntry>::empty(),
    {
        Recents::new()
    }
}

impl Recents {
    /// Each desktop id has at most one entry.
    #[verifier::type_invariant]
    spec fn ids_distinct(self) -> bool {
        distinct_ids(self.entries@)
    }

    /// Empty history.
    pub fn new() -> (r: Self)
        ensures
            r@ == Map::<Seq<char>, RecentEntry>::empty(),
    {
        let r = Recents { entries: Vec::new() };
        assert(r@ =~= Map::<Seq<char>, RecentEntry>::empty());
        r
    }

    /// History from `(id, entry)` pairs; the first pair for an id counts.
    pub fn from_entries(entries: Vec<(String, RecentEntry)>) -> (r: Self)
        ensures
            forall|k: Seq<char>| #[trigger] r@.contains_key(k) == (entry_in(entries@, k) is Some),
            forall|k: Seq<char>| r@.contains_key(k) ==> #[trigger] r@[k] == entry_in(entries@, k)->0,
    {
        let mut out: Vec<(String, RecentEntry)> = Vec::new();
        let mut i: usize = 0;
        while i < entries.len()
            invariant
                i <= entries.len(),
                distinct_ids(out@),
                forall|k: Seq<char>| #[trigger] entry_in(out@, k) == entry_in(entries@.take(i as int), k),
            decreases entries.len() - i,
        {
            let ghost prefix = entries@.take(i as int);
            assert(entries@.take(i + 1) =~= prefix.push(entries@[i as int]));
            let id = chars_of(entries[i].0.as_str());
            let found = index_in(&out, id.as_slice());
            let ghost before = out@;
            if found.is_none() {
                let name = entries[i].0.clone();
                let e = entries[i].1;
                out.push((name, e));
                proof {
                    lemma_absent_ids_differ(before, id@);
                    assert forall|a: int, b: int| 0 <= a < b < out@.len() implies (#[trigger] out@[a]).0@
                        != (#[trigger] out@[b]).0@ by {
                        assert(out@[a] == before[a]);
                        if b < before.len() {
                            assert(out@[b] == before[b]);
                        }
                    }
                    assert forall|k: Seq<char>| #[trigger] entry_in(out@, k) == entry_in(
                        entries@.take(i + 1),
                        k,
                    ) by {
                        lemma_entry_in_push_one(before, name, e, k);
                        lemma_entry_in_push_any(prefix, entries@[i as int], k);
                    }
                }
            } else {
                proof {
                    assert forall|k: Seq<char>| #[trigger] entry_in(out@, k) == entry_in(
                        entries@.take(i + 1),
                        k,
                    ) by {
                        lemma_entry_in_push_any(prefix, entries@[i as int], k);
                    }
                }
            }
            i += 1;
        }
        assert(entries@.take(entries.len() as int) =~= entries@);
        Recents { entries: out }
    }

    /// The recorded `(id, entry)` pairs, one per id.
    pub fn entries(&self) -> (r: Vec<(String, RecentEntry)>)
        ensures
            distinct_ids(r@),
            forall|k: Seq<char>| #[trigger] self@.contains_key(k) == (entry_in(r@, k) is Some),
            forall|k: Seq<char>| self@.contains_key(k) ==> #[trigger] self@[k] == entry_in(r@, k)->0,
    {
        proof {
            use_type_invariant(self);
        }
        let mut out: Vec<(String, RecentEntry)> = Vec::new();
        let mut i: usize = 0;
        while i < self.entries.len()
            invariant
                distinct_ids(self.entries@),
                i <= self.entries.len(),
                out@.len() == i,
                forall|j: int| 0 <= j < i ==> (#[trigger] out@[j]).0@ == self.entries@[j].0@
                    && out@[j].1 == self.entries@[j].1,
            decreases self.entries.len() - i,
        {
            let (id, e) = (&self.entries[i].0, self.entries[i].1);
            out.push((id.clone(), e));
            i += 1;
        }
        proof {
            assert forall|k: Seq<char>| entry_in(out@, k) == entry_in(self.entries@, k) by {
                lemma_entry_in_same(out@, self.entries@, k);
            }
            assert forall|a: int, b: int| 0 <= a < b < out@.len() implies (#[trigger] out@[a]).0@
                != (#[trigger] out@[b]).0@ by {
                assert(self.entries@[a].0@ != self.entries@[b].0@);
            }
        }
        out
    }

    /// Index of the entry for `id`, if any.
    fn index_of(&self, id: &[char]) -> (r: Option<usize>)
        ensures
            r matches Some(i) ==> i < self.entries@.len() && self.entries@[i as int].0@ == id@
                && entry_in(self.entries@, id@) == Some(self.entries@[i as int].1) && forall|j: int|
                0 <= j < i ==> self.entries@[j].0@ != id@,
            r is None ==> entry_in(self.entries@, id@) is None,
    {
        index_in(&self.entries, id)
    }

    /// The entry for `desktop_id`.
    pub fn get(&self, desktop_id: &str) -> (r: Option<RecentEntry>)
        ensures
            r is Some <==> self@.contains_key(desktop_id@),
            r matches Some(e) ==> self@[desktop_id@] == e,
    {
        let id = chars_of(desktop_id);
        match self.index_of(id.as_slice()) {
            Some(i) => Some(self.entries[i].1),
            None => None,
        }
    }

    /// Record a launch of `desktop_id` at time `now`.
    pub fn record_at(&mut self, desktop_id: &str, now: u64)
        ensures
            final(self)@ == recorded(old(self)@, desktop_id@, now),
    {
        proof {
            use_type_invariant(&*self);
        }
        let id = chars_of(desktop_id);
        if id.len() == 0 {
            return;
        }
        let ghost m = old(self)@;
        let found = self.index_of(id.as_slice());
        let mut v: Vec<(String, RecentEntry)> = Vec::new();
        std::mem::swap(&mut v, &mut self.entries);
        let ghost before = v@;
        assert(distinct_ids(before));
        match found {
            Some(i) => {
                let old_e = v[i].1;
                let e = RecentEntry { count: old_e.count.saturating_add(1), last_used: now };
                let name = v[i].0.clone();
                v.set(i, (name, e));
                proof {
                    assert forall|a: int, b: int| 0 <= a < b < v@.len() implies (#[trigger] v@[a]).0@
                        != (#[trigger] v@[b]).0@ by {
                        assert(v@[a].0@ == before[a].0@);
                        assert(v@[b].0@ == before[b].0@);
                    }
                    assert forall|k: Seq<char>| #[trigger]
                        entry_in(v@, k) == if k == id@ {
                            Some(e)
                        } else {
                            entry_in(before, k)
                        } by {
                        lemma_entry_in_set(before, i as int, e, k);
                    }
                }
            },
            None => {
                proof {
                    lemma_absent_ids_differ(before, id@);
                }
                let e = RecentEntry { count: 1, last_used: now };
                v.push((String::from_str(desktop_id), e));
                proof {
                    assert forall|a: int, b: int| 0 <= a < b < v@.len() implies (#[trigger] v@[a]).0@
                        != (#[trigger] v@[b]).0@ by {
                        assert(v@[a] == before[a]);
                        if b < before.len() {
                            assert(v@[b] == before[b]);
                        }
                    }
                    assert forall|k: Seq<char>| #[trigger]
                        entry_in(v@, k) == if k == id@ {
                            Some(e)
                        } else {
                            entry_in(before, k)
                        } by {
                        lemma_entry_in_push(before, desktop_id@, e, k);
                    }
                }
            },
        }
        self.entries = v;
        proof {
            assert(self@ =~= recorded(m, desktop_id@, now));
        }
    }

    /// Record a launch of `desktop_id` now. Persisting is the caller's part.
    pub fn record(&mut self, desktop_id: &str)
        ensures
            exists|t: u64| final(self)@ == recorded(old(self)@, desktop_id@, t),
    {
        let now = now_secs();
        self.record_at(desktop_id, now);
    }

    /// Ranking bonus at time `now`: count + recency.
    pub fn bonus_at(&self, desktop_id: &str, now: u64) -> (r: i32)
        requires
            bonus_in_range(self@, desktop_id@),
        ensures
            r == bonus_value(self@, desktop_id@, now),
    {
        let e = match self.get(desktop_id) {
            Some(e) => e,
            None => return 0,
        };
        let signed: i32 = if e.count < 2147483648 {
            e.count as i32
        } else {
            (e.count - 2147483648) as i32 - 2147483647 - 1
        };
        let scaled = signed * 20;
        let count_bonus = if scaled < 200 {
            scaled
        } else {
            200
        };
        let age = now.saturating_sub(e.last_used);
        let recency = if age < 3_600 {
            50
        } else if age < 86_400 {
            30
        } else if age < 604_800 {
            15
        } else if e.count > 0 {
            5
        } else {
            0
        };
        count_bonus + recency
    }

    /// Ranking bonus now: count + recency.
    pub fn bonus(&self, desktop_id: &str) -> (r: i32)
        requires
            bonus_in_range(self@, desktop_id@),
        ensures
            exists|t: u64| r == bonus_value(self@, desktop_id@, t),
    {
        let now = now_secs();
        self.bonus_at(desktop_id, now)
    }
}

/// Index of the entry for `id` in `v`, if any.
fn index_in(v: &Vec<(String, RecentEntry)>, id: &[char]) -> (r: Option<usize>)
    ensures
        r matches Some(i) ==> i < v@.len() && v@[i as int].0@ == id@ && entry_in(v@, id@) == Some(
            v@[i as int].1,
        ) && forall|j: int| 0 <= j < i ==> v@[j].0@ != id@,
        r is None ==> entry_in(v@, id@) is None,
{
    let mut i: usize = 0;
    assert(v@.skip(0) =~= v@);
    while i < v.len()
        invariant
            i <= v.len(),
            forall|j: int| 0 <= j < i ==> v@[j].0@ != id@,
            entry_in(v@.skip(i as int), id@) == entry_in(v@, id@),
        decreases v.len() - i,
    {
        let k = chars_of(v[i].0.as_str());
        assert(v@.skip(i as int)[0] == v@[i as int]);
        if same_chars(k.as_slice(), id) {
            return Some(i);
        }
        assert(v@.skip(i as int).drop_first() =~= v@.skip(i + 1));
        i += 1;
    }
    None
}

proof fn lemma_absent_ids_differ(s: Seq<(String, RecentEntry)>, id: Seq<char>)
    requires
        entry_in(s, id) is None,
    ensures
        forall|j: int| 0 <= j < s.len() ==> (#[trigger] s[j]).0@ != id,
    decreases s.len(),
{
    if s.len() > 0 {
        lemma_absent_ids_differ(s.drop_first(), id);
        assert forall|j: int| 0 <= j < s.len() implies (#[trigger] s[j]).0@ != id by {
            if j > 0 {
                assert(s[j] == s.drop_first()[j - 1]);
            }
        }
    }
}

proof fn lemma_entry_in_push_any(s: Seq<(String, RecentEntry)>, x: (String, RecentEntry), k: Seq<char>)
    ensures
        entry_in(s.push(x), k) == if entry_in(s, k) is Some {
            entry_in(s, k)
        } else if x.0@ == k {
            Some(x.1)
        } else {
            None
        },
    decreases s.len(),
{
    if s.len() > 0 {
        assert(s.push(x).drop_first() =~= s.drop_first().push(x));
        lemma_entry_in_push_any(s.drop_first(), x, k);
    } else {
        assert(s.push(x).drop_first() =~= s);
    }
}

proof fn lemma_entry_in_same(a: Seq<(String, RecentEntry)>, b: Seq<(String, RecentEntry)>, k: Seq<char>)
    requires
        a.len() == b.len(),
        forall|j: int| 0 <= j < a.len() ==> (#[trigger] a[j]).0@ == b[j].0@ && a[j].1 == b[j].1,
    ensures
        entry_in(a, k) == entry_in(b, k),
    decreases a.len(),
{
    if a.len() > 0 {
        assert forall|j: int| 0 <= j < a.drop_first().len() implies (#[trigger] a.drop_first()[j]).0@
            == b.drop_first()[j].0@ && a.drop_first()[j].1 == b.drop_first()[j].1 by {
            assert(a.drop_first()[j] == a[j + 1]);
            assert(b.drop_first()[j] == b[j + 1]);
        }
        lemma_entry_in_same(a.drop_first(), b.drop_first(), k);
    }
}

proof fn lemma_entry_in_set(s: Seq<(String, RecentEntry)>, i: int, e: RecentEntry, k: Seq<char>)
    requires
        0 <= i < s.len(),
        forall|j: int| 0 <= j < i ==> s[j].0@ != s[i].0@,
    ensures
        entry_in(s.update(i, (s[i].0, e)), k) == if k == s[i].0@ {
            Some(e)
        } else {
            entry_in(s, k)
        },
    decreases s.len(),
{
    let t = s.update(i, (s[i].0, e));
    if i == 0 {
        assert(t.drop_first() =~= s.drop_first());
    } else {
        assert(t.drop_first() =~= s.drop_first().update(i - 1, (s[i].0, e)));
        assert(s.drop_first()[i - 1] == s[i]);
        assert forall|j: int| 0 <= j < i - 1 implies (#[trigger] s.drop_first()[j]).0@ != s.drop_first()[i
            - 1].0@ by {
            assert(s.drop_first()[j] == s[j + 1]);
        }
        lemma_entry_in_set(s.drop_first(), i - 1, e, k);
        assert(s[0].0@ != s[i].0@);
    }
}

proof fn lemma_entry_in_push(s: Seq<(String, RecentEntry)>, id: Seq<char>, e: RecentEntry, k: Seq<char>)
    requires
        entry_in(s, id) is None,
    ensures
        forall|n: String| n@ == id ==> entry_in(s.push((n, e)), k) == if k == id {
            Some(e)
        } else {
            entry_in(s, k)
        },
    decreases s.len(),
{
    assert forall|n: String| n@ == id implies entry_in(s.push((n, e)), k) == if k == id {
        Some(e)
    } else {
        entry_in(s, k)
    } by {
        lemma_entry_in_push_one(s, n, e, k);
    }
}

proof fn lemma_entry_in_push_one(s: Seq<(String, RecentEntry)>, n: String, e: RecentEntry, k: Seq<char>)
    requires
        entry_in(s, n@) is None,
    ensures
        entry_in(s.push((n, e)), k) == if k == n@ {
            Some(e)
        } else {
            entry_in(s, k)
        },
    decreases s.len(),
{
    if s.len() > 0 {
        assert(s.push((n, e)).drop_first() =~= s.drop_first().push((n, e)));
        lemma_entry_in_push_one(s.drop_first(), n, e, k);
    } else {
        assert(s.push((n, e)).drop_first() =~= s);
    }
}

/// A bonus that can be computed lies in `i32`, at most 250.
pub proof fn lemma_bonus_bounds(m: Map<Seq<char>, RecentEntry>, id: Seq<char>, now: u64)
    requires
        bonus_in_range(m, id),
    ensures
        -2147483640 <= bonus_value(m, id, now) <= 250,
{
}

// ---------------------------------------------------------------- laws
/// Launching an app (non-empty id) at `now` gives it a bonus of at least 70 at that
/// moment: at least one launch (20) and used within the hour (50), as long as the
/// new count still reads as a positive `i32`.
pub proof fn law_just_launched_bonus(m: Map<Seq<char>, RecentEntry>, id: Seq<char>, now: u64)
    requires
        id.len() > 0,
        m.contains_key(id) ==> m[id].count < 2147483647,
    ensures
        bonus_value(recorded(m, id, now), id, now) >= 70,
{
}

/// Launching an app never lowers its bonus at the moment of the launch, except
/// when its count crosses from `i32::MAX` to where `count as i32` wraps.
pub proof fn law_record_raises_bonus(m: Map<Seq<char>, RecentEntry>, id: Seq<char>, now: u64)
    requires
        id.len() > 0,
        m.contains_key(id) ==> m[id].count != 2147483647,
    ensures
        bonus_value(recorded(m, id, now), id, now) >= bonus_value(m, id, now),
{
}

/// Launching an app leaves every other app's history, and so its bonus, unchanged.
pub proof fn law_record_keeps_others(
    m: Map<Seq<char>, RecentEntry>,
    id: Seq<char>,
    other: Seq<char>,
    now: u64,
    t: u64,
)
    requires
        other != id,
    ensures
        recorded(m, id, now).contains_key(other) == m.contains_key(other),
        bonus_value(recorded(m, id, now), other, t) == bonus_value(m, other, t),
{
}

/// Apps never launched get no bonus.
pub proof fn law_unknown_has_no_bonus(m: Map<Seq<char>, RecentEntry>, id: Seq<char>, now: u64)
    requires
        !m.contains_key(id),
    ensures
        bonus_value(m, id, now) == 0,
{
}

/// Each launch adds exactly one to the count, up to `u32::MAX`.
pub proof fn law_record_counts_launches(m: Map<Seq<char>, RecentEntry>, id: Seq<char>, now: u64)
    requires
        id.len() > 0,
    ensures
        recorded(m, id, now)[id].count == if m.contains_key(id) {
            bumped(m[id].count)
        } else {
            1
        },
        recorded(m, id, now)[id].last_used == now,
{
}

/// The bonus of a launched application whose count is below 2^31: 20 per launch up
/// to 200, plus 50 when last launched within the hour, 30 within the day, 15 within
/// the week, and after that 5 (0 for a count of 0); a clock before the last launch
/// counts as age 0.
pub proof fn law_bonus_schedule(m: Map<Seq<char>, RecentEntry>, id: Seq<char>, now: u64)
    requires
        m.contains_key(id),
        m[id].count < 2147483648,
    ensures
        bonus_value(m, id, now) == (if 20 * m[id].count < 200 {
            20 * m[id].count
        } else {
            200int
        }) + (if now < m[id].last_used + 3600 {
            50int
        } else if now < m[id].last_used + 86400 {
            30int
        } else if now < m[id].last_used + 604800 {
            15int
        } else if m[id].count > 0 {
            5int
        } else {
            0int
        }),
{
}

/// A second launch at the same moment adds 20 to the bonus while the count stays
/// at most 10, and nothing once the count part has reached its cap of 200.
pub proof fn law_launch_adds_twenty(m: Map<Seq<char>, RecentEntry>, id: Seq<char>, now: u64)
    requires
        id.len() > 0,
        m.contains_key(id) ==> m[id].count < 2147483646,
    ensures
        ({
            let once = recorded(m, id, now);
            let twice = recorded(once, id, now);
            &&& once[id].count < 10 ==> bonus_value(twice, id, now) == bonus_value(once, id, now) + 20
            &&& once[id].count >= 10 ==> bonus_value(twice, id, now) == bonus_value(once, id, now)
        }),
{
}

} // verus!
