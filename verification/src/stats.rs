//! The accumulator: per-level counts, raw error and warning lines,
//! address counts and status-code counts, fed one line at a time.

use vstd::prelude::*;
use vstd::pervasive::VecAdditionalExecFns;
use vstd::string::*;
use crate::text::contains_ci;
use crate::text::find_seq;
use crate::text::fold_seq;
use crate::text::fold_str;
use crate::text::matches_at;
use crate::extract::extract_ip;
use crate::extract::extract_status_code;
use crate::extract::first_ip_token;
use crate::extract::first_status_token;
use crate::extract::uint_val;

verus! {

/// A log severity level: one of the five markers searched for in a line,
/// in priority order.  `Warn` is checked before `Warning`, so `Warning`
/// can never be the outcome of classification; it is kept so that the
/// priority list is stated exactly as it is scanned.
#[derive(Clone, Copy, PartialEq, Eq, Structural, Debug)]
pub enum Level {
    Error,
    Warn,
    Warning,
    Info,
    Debug,
}

/// The marker substring of each level, upper-case.
pub open spec fn marker(l: Level) -> Seq<char> {
    match l {
        Level::Error => "ERROR"@,
        Level::Warn => "WARN"@,
        Level::Warning => "WARNING"@,
        Level::Info => "INFO"@,
        Level::Debug => "DEBUG"@,
    }
}

/// The level of a line: the first marker found as a substring of the
/// upper-cased line, scanning ERROR, WARN, WARNING, INFO, DEBUG in
/// that order.
pub open spec fn spec_classify(line: Seq<char>) -> Option<Level> {
    if contains_ci(line, marker(Level::Error)) {
        Some(Level::Error)
    } else if contains_ci(line, marker(Level::Warn)) {
        Some(Level::Warn)
    } else if contains_ci(line, marker(Level::Warning)) {
        Some(Level::Warning)
    } else if contains_ci(line, marker(Level::Info)) {
        Some(Level::Info)
    } else if contains_ci(line, marker(Level::Debug)) {
        Some(Level::Debug)
    } else {
        None
    }
}

/// Classifies one line by the first marker found, in priority order.
pub fn classify(line: &str) -> (r: Option<Level>)
    ensures
        r == spec_classify(line@),
{
    let folded = fold_str(line);
    if find_seq(&folded, "ERROR") {
        Some(Level::Error)
    } else if find_seq(&folded, "WARN") {
        Some(Level::Warn)
    } else if find_seq(&folded, "WARNING") {
        Some(Level::Warning)
    } else if find_seq(&folded, "INFO") {
        Some(Level::Info)
    } else if find_seq(&folded, "DEBUG") {
        Some(Level::Debug)
    } else {
        None
    }
}

/// Adds one occurrence of key `k` to a count list: the first pair with
/// that key is incremented, or `(k, 1)` is appended when none exists.
pub open spec fn bump<K>(s: Seq<(K, usize)>, k: K) -> Seq<(K, usize)>
    decreases s.len(),
{
    if s.len() == 0 {
        seq![(k, 1usize)]
    } else if s[0].0 == k {
        seq![(s[0].0, (s[0].1 + 1) as usize)] + s.drop_first()
    } else {
        seq![s[0]] + bump(s.drop_first(), k)
    }
}

/// When `k` first occurs at `idx`, `bump` increments that pair in place.
pub proof fn lemma_bump_found<K>(s: Seq<(K, usize)>, k: K, idx: int)
    requires
        0 <= idx < s.len(),
        s[idx].0 == k,
        forall|j: int| 0 <= j < idx ==> (#[trigger] s[j]).0 != k,
    ensures
        bump(s, k) == s.update(idx, (s[idx].0, (s[idx].1 + 1) as usize)),
    decreases idx,
{
    if idx == 0 {
        assert(bump(s, k) =~= s.update(0, (s[0].0, (s[0].1 + 1) as usize)));
    } else {
        assert forall|j: int| 0 <= j < idx - 1 implies (#[trigger] s.drop_first()[j]).0 != k by {
            assert(s.drop_first()[j] == s[j + 1]);
        }
        lemma_bump_found(s.drop_first(), k, idx - 1);
        assert(bump(s, k) =~= s.update(idx, (s[idx].0, (s[idx].1 + 1) as usize)));
    }
}

/// When `k` does not occur, `bump` appends `(k, 1)`.
pub proof fn lemma_bump_absent<K>(s: Seq<(K, usize)>, k: K)
    requires
        forall|j: int| 0 <= j < s.len() ==> (#[trigger] s[j]).0 != k,
    ensures
        bump(s, k) == s.push((k, 1usize)),
    decreases s.len(),
{
    if s.len() == 0 {
        assert(bump(s, k) =~= s.push((k, 1usize)));
    } else {
        assert forall|j: int| 0 <= j < s.drop_first().len() implies (#[trigger] s.drop_first()[j]).0
            != k by {
            assert(s.drop_first()[j] == s[j + 1]);
        }
        lemma_bump_absent(s.drop_first(), k);
        assert(bump(s, k) =~= s.push((k, 1usize)));
    }
}

/// `bump` keeps keys unique and counts positive; one count grows by one,
/// so a bound on all counts grows by at most one.
pub proof fn lemma_bump_wf<K>(s: Seq<(K, usize)>, k: K, bound: int)
    requires
        0 <= bound < usize::MAX,
        forall|a: int, b: int| 0 <= a < b < s.len() ==> (#[trigger] s[a]).0 != (#[trigger] s[b]).0,
        forall|j: int| 0 <= j < s.len() ==> 1 <= (#[trigger] s[j]).1 <= bound,
    ensures
        forall|a: int, b: int|
            0 <= a < b < bump(s, k).len() ==> (#[trigger] bump(s, k)[a]).0 != (#[trigger] bump(
                s,
                k,
            )[b]).0,
        forall|j: int| 0 <= j < bump(s, k).len() ==> 1 <= (#[trigger] bump(s, k)[j]).1 <= bound + 1,
{
    if exists|j: int| 0 <= j < s.len() && (#[trigger] s[j]).0 == k {
        let idx = choose|j: int| 0 <= j < s.len() && (#[trigger] s[j]).0 == k;
        lemma_first_occurrence(s, k, idx);
        let first = choose|j: int|
            0 <= j <= idx && (#[trigger] s[j]).0 == k && (forall|l: int|
                0 <= l < j ==> (#[trigger] s[l]).0 != k);
        lemma_bump_found(s, k, first);
        let t = s.update(first, (s[first].0, (s[first].1 + 1) as usize));
        assert forall|j: int| 0 <= j < t.len() implies 1 <= (#[trigger] t[j]).1 <= bound + 1 by {
            if j != first {
                assert(t[j] == s[j]);
            }
        }
    } else {
        lemma_bump_absent(s, k);
        let t = s.push((k, 1usize));
        assert forall|j: int| 0 <= j < t.len() implies 1 <= (#[trigger] t[j]).1 <= bound + 1 by {
            if j < s.len() {
                assert(t[j] == s[j]);
            }
        }
    }
}

/// Among the indices whose key is `k`, there is a least one.
proof fn lemma_first_occurrence<K>(s: Seq<(K, usize)>, k: K, idx: int)
    requires
        0 <= idx < s.len(),
        s[idx].0 == k,
    ensures
        exists|j: int|
            0 <= j <= idx && (#[trigger] s[j]).0 == k && forall|l: int|
                0 <= l < j ==> (#[trigger] s[l]).0 != k,
    decreases idx,
{
    if forall|l: int| 0 <= l < idx ==> (#[trigger] s[l]).0 != k {
        assert(0 <= idx <= idx && s[idx].0 == k && forall|l: int|
            0 <= l < idx ==> (#[trigger] s[l]).0 != k);
    } else {
        let e = choose|l: int| 0 <= l < idx && (#[trigger] s[l]).0 == k;
        lemma_first_occurrence(s, k, e);
        let j = choose|j: int|
            0 <= j <= e && (#[trigger] s[j]).0 == k && forall|l: int|
                0 <= l < j ==> (#[trigger] s[l]).0 != k;
        assert(0 <= j <= idx && s[j].0 == k && forall|l: int|
            0 <= l < j ==> (#[trigger] s[l]).0 != k);
    }
}

/// The view of an address-count list: string keys become sequences.
pub open spec fn ip_rows(s: Seq<(String, usize)>) -> Seq<(Seq<char>, usize)> {
    s.map_values(|p: (String, usize)| (p.0@, p.1))
}

/// The accumulator.  Count lists are kept in first-encounter order with
/// unique keys; error and warning lines are kept raw, in encounter order.
pub struct LogStats {
    pub total_lines: usize,
    pub levels: Vec<(Level, usize)>,
    pub errors: Vec<String>,
    pub warnings: Vec<String>,
    pub ip_addresses: Vec<(String, usize)>,
    pub status_codes: Vec<(u16, usize)>,
}

/// The accumulator's contents as one mathematical value.
pub ghost struct StatsModel {
    pub total: int,
    pub levels: Seq<(Level, usize)>,
    pub errors: Seq<Seq<char>>,
    pub warnings: Seq<Seq<char>>,
    pub ips: Seq<(Seq<char>, usize)>,
    pub codes: Seq<(u16, usize)>,
}

/// One line's effect on the accumulated statistics.
pub open spec fn spec_step(m: StatsModel, line: Seq<char>) -> StatsModel {
    StatsModel {
        total: m.total + 1,
        levels: (match spec_classify(line) {
            Some(l) => bump(m.levels, l),
            None => m.levels,
        }),
        errors: (if spec_classify(line) == Some(Level::Error) {
            m.errors.push(line)
        } else {
            m.errors
        }),
        warnings: (if spec_classify(line) == Some(Level::Warn) || spec_classify(line) == Some(
            Level::Warning,
        ) {
            m.warnings.push(line)
        } else {
            m.warnings
        }),
        ips: (match first_ip_token(line) {
            Some(t) => bump(m.ips, t),
            None => m.ips,
        }),
        codes: (match first_status_token(line) {
            Some(t) => bump(m.codes, uint_val(t) as u16),
            None => m.codes,
        }),
    }
}

/// The statistics of a whole sequence of lines, starting from nothing.
pub open spec fn spec_run(lines: Seq<Seq<char>>) -> StatsModel
    decreases lines.len(),
{
    if lines.len() == 0 {
        StatsModel {
            total: 0,
            levels: Seq::empty(),
            errors: Seq::empty(),
            warnings: Seq::empty(),
            ips: Seq::empty(),
            codes: Seq::empty(),
        }
    } else {
        spec_step(spec_run(lines.drop_last()), lines.last())
    }
}

impl LogStats {
    /// The address counts, with string keys abstracted to character
    /// sequences.
    pub open spec fn ips_model(self) -> Seq<(Seq<char>, usize)> {
        ip_rows(self.ip_addresses@)
    }

    /// Everything the accumulator holds, as one mathematical value.
    pub open spec fn model(self) -> StatsModel {
        StatsModel {
            total: self.total_lines as int,
            levels: self.levels@,
            errors: self.errors.deep_view(),
            warnings: self.warnings.deep_view(),
            ips: self.ips_model(),
            codes: self.status_codes@,
        }
    }

    /// Keys occur at most once, and every count is at least one and at
    /// most the number of lines seen.
    pub open spec fn wf(self) -> bool {
        &&& forall|a: int, b: int|
            0 <= a < b < self.levels@.len() ==> (#[trigger] self.levels@[a]).0 != (
            #[trigger] self.levels@[b]).0
        &&& forall|j: int|
            0 <= j < self.levels@.len() ==> 1 <= (#[trigger] self.levels@[j]).1
                <= self.total_lines
        &&& forall|a: int, b: int|
            0 <= a < b < self.ips_model().len() ==> (#[trigger] self.ips_model()[a]).0 != (
            #[trigger] self.ips_model()[b]).0
        &&& forall|j: int|
            0 <= j < self.ips_model().len() ==> 1 <= (#[trigger] self.ips_model()[j]).1
                <= self.total_lines
        &&& forall|a: int, b: int|
            0 <= a < b < self.status_codes@.len() ==> (#[trigger] self.status_codes@[a]).0 != (
            #[trigger] self.status_codes@[b]).0
        &&& forall|j: int|
            0 <= j < self.status_codes@.len() ==> 1 <= (#[trigger] self.status_codes@[j]).1
                <= self.total_lines
    }

    /// An empty accumulator.
    pub fn new() -> (s: LogStats)
        ensures
            s.total_lines == 0,
            s.levels@ == Seq::<(Level, usize)>::empty(),
            s.errors@ == Seq::<String>::empty(),
            s.warnings@ == Seq::<String>::empty(),
            s.ip_addresses@ == Seq::<(String, usize)>::empty(),
            s.status_codes@ == Seq::<(u16, usize)>::empty(),
            s.wf(),
    {
        LogStats {
            total_lines: 0,
            levels: Vec::new(),
            errors: Vec::new(),
            warnings: Vec::new(),
            ip_addresses: Vec::new(),
            status_codes: Vec::new(),
        }
    }

    /// Feeds one line into the accumulator: the line is counted, then
    /// classified by the first marker found; an `ERROR` line is kept in
    /// `errors` and a `WARN`/`WARNING` line in `warnings`, raw; the first
    /// dotted-quad token and the first status-code token, when present,
    /// each add one to their key's count.
    pub fn analyze_line(&mut self, line: &str)
        requires
            old(self).wf(),
            old(self).total_lines < usize::MAX,
        ensures
            final(self).wf(),
            final(self).total_lines == old(self).total_lines + 1,
            final(self).levels@ == (match spec_classify(line@) {
                Some(l) => bump(old(self).levels@, l),
                None => old(self).levels@,
            }),
            final(self).errors.deep_view() == (if spec_classify(line@) == Some(Level::Error) {
                old(self).errors.deep_view().push(line@)
            } else {
                old(self).errors.deep_view()
            }),
            final(self).warnings.deep_view() == (if spec_classify(line@) == Some(Level::Warn)
                || spec_classify(line@) == Some(Level::Warning) {
                old(self).warnings.deep_view().push(line@)
            } else {
                old(self).warnings.deep_view()
            }),
            final(self).ips_model() == (match first_ip_token(line@) {
                Some(t) => bump(old(self).ips_model(), t),
                None => old(self).ips_model(),
            }),
            final(self).status_codes@ == (match first_status_token(line@) {
                Some(t) => bump(old(self).status_codes@, uint_val(t) as u16),
                None => old(self).status_codes@,
            }),
            final(self).model() == spec_step(old(self).model(), line@),
    {
        let ghost pre = *self;
        self.total_lines = self.total_lines + 1;
        let cls = classify(line);
        if let Some(l) = cls {
            proof {
                lemma_bump_wf(pre.levels@, l, pre.total_lines as int);
            }
            bump_level(&mut self.levels, l);
            if l == Level::Error {
                self.errors.push(String::from_str(line));
                proof {
                    assert(self.errors.deep_view() =~= pre.errors.deep_view().push(line@));
                }
            } else if l == Level::Warn || l == Level::Warning {
                self.warnings.push(String::from_str(line));
                proof {
                    assert(self.warnings.deep_view() =~= pre.warnings.deep_view().push(line@));
                }
            }
        }
        let ip = extract_ip(line);
        if let Some(key) = ip {
            proof {
                lemma_bump_wf(pre.ips_model(), key@, pre.total_lines as int);
                assert forall|j: int| 0 <= j < self.ip_addresses@.len() implies (
                #[trigger] self.ip_addresses@[j]).1 < usize::MAX by {
                    assert(pre.ips_model()[j] == (self.ip_addresses@[j].0@,
                    self.ip_addresses@[j].1));
                }
            }
            bump_ip(&mut self.ip_addresses, key);
        }
        let code = extract_status_code(line);
        if let Some(c) = code {
            proof {
                crate::extract::lemma_first_status_is(line@);
                lemma_bump_wf(pre.status_codes@, c, pre.total_lines as int);
            }
            bump_code(&mut self.status_codes, c);
        }
    }
}

/// Analyzes every line of `lines`, in order, into a fresh accumulator:
/// the result is exactly `spec_run` of the lines, so any two runs over
/// the same lines accumulate the same statistics.
pub fn analyze_lines(lines: &Vec<String>) -> (s: LogStats)
    requires
        lines@.len() < usize::MAX,
    ensures
        s.wf(),
        s.model() == spec_run(lines.deep_view()),
{
    let mut s = LogStats::new();
    proof {
        assert(s.ips_model() =~= Seq::<(Seq<char>, usize)>::empty());
        assert(s.errors.deep_view() =~= Seq::<Seq<char>>::empty());
        assert(s.warnings.deep_view() =~= Seq::<Seq<char>>::empty());
        assert(lines.deep_view().take(0) =~= Seq::<Seq<char>>::empty());
    }
    let n = lines.len();
    let mut i: usize = 0;
    while i < n
        invariant
            0 <= i <= n,
            n == lines@.len(),
            n < usize::MAX,
            s.wf(),
            s.total_lines == i,
            s.model() == spec_run(lines.deep_view().take(i as int)),
        decreases n - i,
    {
        s.analyze_line(lines[i].as_str());
        proof {
            assert(lines.deep_view().take(i + 1).drop_last() =~= lines.deep_view().take(i as int));
            assert(lines.deep_view().take(i + 1).last() == lines@[i as int]@);
        }
        i = i + 1;
    }
    proof {
        assert(lines.deep_view().take(n as int) =~= lines.deep_view());
    }
    s
}

/// Increments the count of `k` in a level-count list, or appends `(k, 1)`.
fn bump_level(v: &mut Vec<(Level, usize)>, k: Level)
    requires
        forall|j: int| 0 <= j < old(v)@.len() ==> (#[trigger] old(v)@[j]).1 < usize::MAX,
    ensures
        final(v)@ == bump(old(v)@, k),
{
    let n = v.len();
    let mut idx: usize = 0;
    while idx < n
        invariant
            0 <= idx <= n,
            n == v@.len(),
            v@ == old(v)@,
            forall|j: int| 0 <= j < old(v)@.len() ==> (#[trigger] old(v)@[j]).1 < usize::MAX,
            forall|j: int| 0 <= j < idx ==> (#[trigger] v@[j]).0 != k,
        decreases n - idx,
    {
        if v[idx].0 == k {
            let c = v[idx].1;
            v.set(idx, (k, c + 1));
            proof {
                lemma_bump_found(old(v)@, k, idx as int);
            }
            return ;
        }
        idx = idx + 1;
    }
    v.push((k, 1));
    proof {
        lemma_bump_absent(old(v)@, k);
    }
}

/// Increments the count of `k` in a status-code count list, or appends.
fn bump_code(v: &mut Vec<(u16, usize)>, k: u16)
    requires
        forall|j: int| 0 <= j < old(v)@.len() ==> (#[trigger] old(v)@[j]).1 < usize::MAX,
    ensures
        final(v)@ == bump(old(v)@, k),
{
    let n = v.len();
    let mut idx: usize = 0;
    while idx < n
        invariant
            0 <= idx <= n,
            n == v@.len(),
            v@ == old(v)@,
            forall|j: int| 0 <= j < old(v)@.len() ==> (#[trigger] old(v)@[j]).1 < usize::MAX,
            forall|j: int| 0 <= j < idx ==> (#[trigger] v@[j]).0 != k,
        decreases n - idx,
    {
        if v[idx].0 == k {
            let c = v[idx].1;
            v.set(idx, (k, c + 1));
            proof {
                lemma_bump_found(old(v)@, k, idx as int);
            }
            return ;
        }
        idx = idx + 1;
    }
    v.push((k, 1));
    proof {
        lemma_bump_absent(old(v)@, k);
    }
}

/// Increments the count of the address `k` in an address-count list, or
/// appends; keys are compared as strings.
fn bump_ip(v: &mut Vec<(String, usize)>, k: String)
    requires
        forall|j: int| 0 <= j < old(v)@.len() ==> (#[trigger] old(v)@[j]).1 < usize::MAX,
    ensures
        ip_rows(final(v)@) == bump(ip_rows(old(v)@), k@),
{
    let n = v.len();
    let mut idx: usize = 0;
    while idx < n
        invariant
            0 <= idx <= n,
            n == v@.len(),
            v@ == old(v)@,
            forall|j: int| 0 <= j < old(v)@.len() ==> (#[trigger] old(v)@[j]).1 < usize::MAX,
            forall|j: int| 0 <= j < idx ==> (#[trigger] v@[j]).0@ != k@,
        decreases n - idx,
    {
        if v[idx].0 == k {
            let c = v[idx].1;
            let key = v[idx].0.clone();
            v.set(idx, (key, c + 1));
            proof {
                assert forall|j: int| 0 <= j < idx implies (#[trigger] ip_rows(old(v)@)[j]).0
                    != k@ by {
                    assert(ip_rows(old(v)@)[j] == (old(v)@[j].0@, old(v)@[j].1));
                }
                lemma_bump_found(ip_rows(old(v)@), k@, idx as int);
                assert(ip_rows(v@) =~= bump(ip_rows(old(v)@), k@));
            }
            return ;
        }
        idx = idx + 1;
    }
    v.push((k, 1));
    proof {
        assert forall|j: int| 0 <= j < old(v)@.len() implies (#[trigger] ip_rows(old(v)@)[j]).0
            != k@ by {
            assert(ip_rows(old(v)@)[j] == (old(v)@[j].0@, old(v)@[j].1));
        }
        lemma_bump_absent(ip_rows(old(v)@), k@);
        assert(ip_rows(v@) =~= bump(ip_rows(old(v)@), k@));
    }
}

/// A line without any of the five markers is classified as no level;
/// together with `analyze_line`'s contract, such a line leaves `levels`,
/// `errors` and `warnings` unchanged and adds one to `total_lines`.
pub proof fn lemma_unmarked_line(line: Seq<char>)
    requires
        !contains_ci(line, "ERROR"@),
        !contains_ci(line, "WARN"@),
        !contains_ci(line, "WARNING"@),
        !contains_ci(line, "INFO"@),
        !contains_ci(line, "DEBUG"@),
    ensures
        spec_classify(line) is None,
{
}

/// A line containing `ERROR` (any case) is always classified `Error`:
/// with `analyze_line`'s contract, it is appended to `errors` and never
/// to `warnings`.
pub proof fn lemma_error_line(line: Seq<char>)
    requires
        contains_ci(line, "ERROR"@),
    ensures
        spec_classify(line) == Some(Level::Error),
{
}

/// Every match of `WARNING` is a match of `WARN`: the shorter marker is
/// a prefix of the longer one.
pub proof fn lemma_warning_implies_warn(line: Seq<char>)
    requires
        contains_ci(line, "WARNING"@),
    ensures
        contains_ci(line, "WARN"@),
{
    reveal_strlit("WARNING");
    reveal_strlit("WARN");
    let f = fold_seq(line);
    let i = choose|i: int| matches_at(f, "WARNING"@, i);
    assert forall|j: int| 0 <= j < "WARN"@.len() implies f[i + j] == "WARN"@[j] by {
        assert(f[i + j] == "WARNING"@[j]);
    }
    assert(matches_at(f, "WARN"@, i));
}

/// A line containing both `WARN` and `WARNING` is classified exactly
/// once: `WARN` is checked first, so (absent `ERROR`) the recorded level
/// is `Warn`, and the line is appended to `warnings` exactly once.
pub proof fn lemma_warn_before_warning(line: Seq<char>)
    requires
        contains_ci(line, "WARNING"@),
        !contains_ci(line, "ERROR"@),
    ensures
        spec_classify(line) == Some(Level::Warn),
{
    lemma_warning_implies_warn(line);
}

/// No line is ever classified `Warning`: any line containing `WARNING`
/// also contains `WARN`, which is scanned first.
pub proof fn lemma_warning_unreachable(line: Seq<char>)
    ensures
        spec_classify(line) != Some(Level::Warning),
{
    if contains_ci(line, "WARNING"@) {
        lemma_warning_implies_warn(line);
    }
}

} // verus!
