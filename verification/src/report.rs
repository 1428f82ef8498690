//! The rendered form of the accumulated statistics: levels by
//! descending count with a permille share of all lines, status codes in
//! ascending order, the ten most frequent addresses, and the five most
//! recent error and warning lines, trimmed.  Ties keep first-encounter
//! order, so the report is a function of the accumulated data alone.

use vstd::prelude::*;
use vstd::arithmetic::div_mod::lemma_div_is_ordered;
use vstd::arithmetic::div_mod::lemma_div_pos_is_pos;
use vstd::arithmetic::div_mod::lemma_fundamental_div_mod_converse;
use vstd::arithmetic::mul::lemma_mul_inequality;
use crate::sort::Ranked;
use crate::sort::lemma_sort_contains;
use crate::sort::lemma_sort_len;
use crate::sort::lemma_sort_sorted;
use crate::sort::order_consistent;
use crate::sort::sort_ranked;
use crate::sort::sorted;
use crate::sort::spec_insert;
use crate::sort::spec_sort;
use crate::stats::Level;
use crate::stats::LogStats;
use crate::text::trim_spec;
use crate::text::trim_str;

verus! {

/// One row of the level breakdown: a level, its count, and its share of
/// all lines in thousandths, rounded to nearest with halves rounding up.
#[derive(Clone, Copy, PartialEq, Eq, Structural, Debug)]
pub struct LevelEntry {
    pub level: Level,
    pub count: usize,
    pub permille: usize,
}

/// One row of the status-code table.
#[derive(Clone, Copy, PartialEq, Eq, Structural, Debug)]
pub struct CodeEntry {
    pub code: u16,
    pub count: usize,
}

/// One row of the address table.
#[derive(PartialEq, Eq, Debug)]
pub struct IpEntry {
    pub ip: String,
    pub count: usize,
}

impl Ranked for LevelEntry {
    open spec fn before(self, other: Self) -> bool {
        self.count > other.count
    }

    fn before_exec(&self, other: &Self) -> (b: bool) {
        self.count > other.count
    }
}

impl Ranked for CodeEntry {
    open spec fn before(self, other: Self) -> bool {
        self.code < other.code
    }

    fn before_exec(&self, other: &Self) -> (b: bool) {
        self.code < other.code
    }
}

impl Ranked for IpEntry {
    open spec fn before(self, other: Self) -> bool {
        self.count > other.count
    }

    fn before_exec(&self, other: &Self) -> (b: bool) {
        self.count > other.count
    }
}

/// The share of `c` out of `total` lines, in thousandths, rounded to
/// nearest with halves rounding up.
pub open spec fn permille_of(c: int, total: int) -> int {
    (c * 2000 + total) / (2 * total)
}

/// The unsorted level rows, in first-encounter order.
pub open spec fn level_rows(levels: Seq<(Level, usize)>, total: int) -> Seq<LevelEntry> {
    levels.map_values(
        |p: (Level, usize)|
            LevelEntry { level: p.0, count: p.1, permille: permille_of(p.1 as int, total) as usize },
    )
}

/// The unsorted status-code rows, in first-encounter order.
pub open spec fn code_rows(codes: Seq<(u16, usize)>) -> Seq<CodeEntry> {
    codes.map_values(|p: (u16, usize)| CodeEntry { code: p.0, count: p.1 })
}

/// The unsorted address rows, in first-encounter order.
pub open spec fn ip_entries(s: Seq<(String, usize)>) -> Seq<IpEntry> {
    s.map_values(|p: (String, usize)| IpEntry { ip: p.0, count: p.1 })
}

/// Address rows with their string keys abstracted to sequences.
pub open spec fn vrows(e: Seq<IpEntry>) -> Seq<(Seq<char>, usize)> {
    e.map_values(|x: IpEntry| (x.ip@, x.count))
}

/// The share of `c` out of `total`, in thousandths, stays in `[0, 1000]`.
proof fn lemma_permille_bound(c: int, total: int)
    requires
        1 <= c <= total,
    ensures
        0 <= permille_of(c, total) <= 1000,
{
    lemma_mul_inequality(c, total, 2000);
    lemma_div_is_ordered(c * 2000 + total, total * 2000 + total, 2 * total);
    lemma_fundamental_div_mod_converse(total * 2000 + total, 2 * total, 1000, total);
    lemma_div_pos_is_pos(c * 2000 + total, 2 * total);
}

pub open spec fn ip_before(a: (Seq<char>, usize), b: (Seq<char>, usize)) -> bool {
    a.1 > b.1
}

/// `spec_insert`, restated on abstracted address rows.
pub open spec fn vinsert(x: (Seq<char>, usize), s: Seq<(Seq<char>, usize)>) -> Seq<
    (Seq<char>, usize),
>
    decreases s.len(),
{
    if s.len() == 0 {
        seq![x]
    } else if ip_before(x, s[0]) {
        seq![x] + s
    } else {
        seq![s[0]] + vinsert(x, s.drop_first())
    }
}

/// `spec_sort`, restated on abstracted address rows.
pub open spec fn vsort(s: Seq<(Seq<char>, usize)>) -> Seq<(Seq<char>, usize)>
    decreases s.len(),
{
    if s.len() == 0 {
        s
    } else {
        vinsert(s.last(), vsort(s.drop_last()))
    }
}

proof fn lemma_vinsert_commute(x: IpEntry, s: Seq<IpEntry>)
    ensures
        vrows(spec_insert(x, s)) == vinsert((x.ip@, x.count), vrows(s)),
    decreases s.len(),
{
    if s.len() == 0 {
        assert(vrows(spec_insert(x, s)) =~= vinsert((x.ip@, x.count), vrows(s)));
    } else if x.before(s[0]) {
        assert(vrows(s)[0] == (s[0].ip@, s[0].count));
        assert(vrows(spec_insert(x, s)) =~= vinsert((x.ip@, x.count), vrows(s)));
    } else {
        assert(vrows(s)[0] == (s[0].ip@, s[0].count));
        lemma_vinsert_commute(x, s.drop_first());
        assert(vrows(s.drop_first()) =~= vrows(s).drop_first());
        assert(vrows(spec_insert(x, s)) =~= vinsert((x.ip@, x.count), vrows(s)));
    }
}

/// Sorting address rows and abstracting their keys commute.
pub proof fn lemma_vsort_commute(s: Seq<IpEntry>)
    ensures
        vrows(spec_sort(s)) == vsort(vrows(s)),
    decreases s.len(),
{
    if s.len() > 0 {
        lemma_vsort_commute(s.drop_last());
        assert(vrows(s.drop_last()) =~= vrows(s).drop_last());
        lemma_vinsert_commute(s.last(), spec_sort(s.drop_last()));
        assert(vrows(s).last() == (s.last().ip@, s.last().count));
    }
}

/// The most recent `5` lines, most recent first, each trimmed.
pub open spec fn spec_recent(lines: Seq<Seq<char>>) -> Seq<Seq<char>> {
    lines.reverse().take(
        if lines.len() < 5 {
            lines.len() as int
        } else {
            5
        },
    ).map_values(|l: Seq<char>| trim_spec(l))
}

/// The last up-to-five lines of `list`, last first, trimmed.
fn recent_trimmed(list: &Vec<String>) -> (out: Vec<String>)
    ensures
        out.deep_view() == spec_recent(list.deep_view()),
        out@.len() == (if list@.len() < 5 {
            list@.len() as int
        } else {
            5
        }),
{
    let n = list.len();
    let mut out: Vec<String> = Vec::new();
    let mut k: usize = 0;
    while k < 5 && k < n
        invariant
            0 <= k <= 5,
            k <= n,
            n == list@.len(),
            out@.len() == k,
            forall|j: int| 0 <= j < k ==> (#[trigger] out@[j])@ == trim_spec(list@[n - 1 - j]@),
        decreases 5 - k,
    {
        let ghost prev = out@;
        let t = trim_str(list[n - 1 - k].as_str());
        out.push(t);
        proof {
            assert forall|j: int| 0 <= j < k + 1 implies (#[trigger] out@[j])@ == trim_spec(
                list@[n - 1 - j]@,
            ) by {
                if j < k {
                    assert(out@[j] == prev[j]);
                } else {
                    assert(out@[j] == t);
                }
            }
        }
        k = k + 1;
    }
    proof {
        let ldv = list.deep_view();
        let want = spec_recent(ldv);
        assert(ldv.len() == n);
        assert(out.deep_view().len() == out@.len());
        assert forall|j: int| 0 <= j < out@.len() implies (#[trigger] out.deep_view()[j])
            == want[j] by {
            assert(ldv.reverse()[j] == ldv[n - 1 - j]);
            assert(ldv[n - 1 - j] == list@[n - 1 - j]@);
            assert(out.deep_view()[j] == out@[j]@);
        }
        assert(out.deep_view() =~= want);
    }
    out
}

/// The rendered statistics.  Sections with no backing data are empty
/// vectors; the renderer omits them.
#[derive(PartialEq, Debug)]
pub struct Report {
    pub total_lines: usize,
    pub levels: Vec<LevelEntry>,
    pub status_codes: Vec<CodeEntry>,
    pub top_ips: Vec<IpEntry>,
    pub error_total: usize,
    pub warning_total: usize,
    pub recent_errors: Vec<String>,
    pub recent_warnings: Vec<String>,
}

impl LogStats {
    /// Renders the accumulated statistics: levels sorted by descending
    /// count (ties in first-encounter order) with their count and their
    /// share of all lines in thousandths, rounded to nearest with
    /// halves rounding up; status codes ascending; the ten most
    /// frequent addresses; and the five most recent error and warning
    /// lines, most recent first, trimmed.
    pub fn build_report(&self) -> (r: Report)
        requires
            self.wf(),
        ensures
            r.total_lines == self.total_lines,
            r.levels@ == spec_sort(level_rows(self.levels@, self.total_lines as int)),
            r.status_codes@ == spec_sort(code_rows(self.status_codes@)),
            r.top_ips@ == spec_sort(ip_entries(self.ip_addresses@)).take(
                if self.ip_addresses@.len() < 10 {
                    self.ip_addresses@.len() as int
                } else {
                    10
                },
            ),
            vrows(r.top_ips@) == vsort(self.ips_model()).take(
                if self.ips_model().len() < 10 {
                    self.ips_model().len() as int
                } else {
                    10
                },
            ),
            r.error_total == self.errors@.len(),
            r.warning_total == self.warnings@.len(),
            r.recent_errors.deep_view() == spec_recent(self.errors.deep_view()),
            r.recent_warnings.deep_view() == spec_recent(self.warnings.deep_view()),
            r.levels@.len() == self.levels@.len(),
            r.status_codes@.len() == self.status_codes@.len(),
            r.top_ips@.len() == (if self.ip_addresses@.len() < 10 {
                self.ip_addresses@.len() as int
            } else {
                10
            }),
            forall|a: int, b: int|
                0 <= a < b < r.levels@.len() ==> (#[trigger] r.levels@[a]).count >= (
                #[trigger] r.levels@[b]).count,
            forall|a: int, b: int|
                0 <= a < b < r.status_codes@.len() ==> (#[trigger] r.status_codes@[a]).code <= (
                #[trigger] r.status_codes@[b]).code,
            forall|a: int, b: int|
                0 <= a < b < r.top_ips@.len() ==> (#[trigger] r.top_ips@[a]).count >= (
                #[trigger] r.top_ips@[b]).count,
            forall|i: int|
                0 <= i < r.levels@.len() ==> (#[trigger] r.levels@[i]).permille == permille_of(
                    r.levels@[i].count as int,
                    self.total_lines as int,
                ),
    {
        let total = self.total_lines;
        let nl = self.levels.len();
        let mut lvl_rows: Vec<LevelEntry> = Vec::new();
        let mut i: usize = 0;
        proof {
            assert(lvl_rows@ =~= level_rows(self.levels@.take(0), total as int));
        }
        while i < nl
            invariant
                0 <= i <= nl,
                nl == self.levels@.len(),
                total == self.total_lines,
                self.wf(),
                lvl_rows@ == level_rows(self.levels@.take(i as int), total as int),
            decreases nl - i,
        {
            let lv = self.levels[i].0;
            let c = self.levels[i].1;
            proof {
                assert(1 <= c <= total);
                lemma_permille_bound(c as int, total as int);
            }
            let pm = (((c as u128) * 2000 + (total as u128)) / (2 * (total as u128))) as usize;
            lvl_rows.push(LevelEntry { level: lv, count: c, permille: pm });
            proof {
                assert(lvl_rows@ =~= level_rows(self.levels@.take(i + 1), total as int));
            }
            i = i + 1;
        }
        proof {
            assert(self.levels@.take(nl as int) =~= self.levels@);
        }
        let levels_sorted = sort_ranked(lvl_rows);

        let nc = self.status_codes.len();
        let mut code_list: Vec<CodeEntry> = Vec::new();
        let mut i: usize = 0;
        proof {
            assert(code_list@ =~= code_rows(self.status_codes@.take(0)));
        }
        while i < nc
            invariant
                0 <= i <= nc,
                nc == self.status_codes@.len(),
                code_list@ == code_rows(self.status_codes@.take(i as int)),
            decreases nc - i,
        {
            let p = self.status_codes[i];
            code_list.push(CodeEntry { code: p.0, count: p.1 });
            proof {
                assert(code_list@ =~= code_rows(self.status_codes@.take(i + 1)));
            }
            i = i + 1;
        }
        proof {
            assert(self.status_codes@.take(nc as int) =~= self.status_codes@);
        }
        let codes_sorted = sort_ranked(code_list);

        let ni = self.ip_addresses.len();
        let mut ip_list: Vec<IpEntry> = Vec::new();
        let mut i: usize = 0;
        proof {
            assert(ip_list@ =~= ip_entries(self.ip_addresses@.take(0)));
        }
        while i < ni
            invariant
                0 <= i <= ni,
                ni == self.ip_addresses@.len(),
                ip_list@ == ip_entries(self.ip_addresses@.take(i as int)),
            decreases ni - i,
        {
            let key = self.ip_addresses[i].0.clone();
            let c = self.ip_addresses[i].1;
            ip_list.push(IpEntry { ip: key, count: c });
            proof {
                assert(ip_list@ =~= ip_entries(self.ip_addresses@.take(i + 1)));
            }
            i = i + 1;
        }
        proof {
            assert(self.ip_addresses@.take(ni as int) =~= self.ip_addresses@);
        }
        let mut top_ips = sort_ranked(ip_list);
        proof {
            lemma_sort_len::<IpEntry>(ip_entries(self.ip_addresses@));
        }
        top_ips.truncate(10);

        let recent_errors = recent_trimmed(&self.errors);
        let recent_warnings = recent_trimmed(&self.warnings);

        let r = Report {
            total_lines: total,
            levels: levels_sorted,
            status_codes: codes_sorted,
            top_ips,
            error_total: self.errors.len(),
            warning_total: self.warnings.len(),
            recent_errors,
            recent_warnings,
        };
        proof {
            let lrows = level_rows(self.levels@, total as int);
            let crows = code_rows(self.status_codes@);
            let irows = ip_entries(self.ip_addresses@);
            let cap = if self.ip_addresses@.len() < 10 {
                self.ip_addresses@.len() as int
            } else {
                10
            };
            assert(r.top_ips@ =~= spec_sort(irows).take(cap));

            lemma_vsort_commute(irows);
            assert(vrows(irows) =~= self.ips_model());
            assert(vrows(r.top_ips@) =~= vsort(self.ips_model()).take(cap));

            lemma_sort_len::<LevelEntry>(lrows);
            lemma_sort_len::<CodeEntry>(crows);

            assert(order_consistent::<LevelEntry>());
            assert(order_consistent::<CodeEntry>());
            assert(order_consistent::<IpEntry>());
            lemma_sort_sorted::<LevelEntry>(lrows);
            lemma_sort_sorted::<CodeEntry>(crows);
            lemma_sort_sorted::<IpEntry>(irows);
            assert forall|a: int, b: int| 0 <= a < b < r.top_ips@.len() implies (
            #[trigger] r.top_ips@[a]).count >= (#[trigger] r.top_ips@[b]).count by {
                assert(r.top_ips@[a] == spec_sort(irows)[a]);
                assert(r.top_ips@[b] == spec_sort(irows)[b]);
                assert(!spec_sort(irows)[b].before(spec_sort(irows)[a]));
            }

            assert forall|i: int| 0 <= i < r.levels@.len() implies (
            #[trigger] r.levels@[i]).permille == permille_of(
                r.levels@[i].count as int,
                self.total_lines as int,
            ) by {
                assert(spec_sort(lrows)[i] == r.levels@[i]);
                assert(spec_sort(lrows).contains(r.levels@[i]));
                lemma_sort_contains(lrows, r.levels@[i]);
                let k = choose|k: int| 0 <= k < lrows.len() && lrows[k] == r.levels@[i];
                assert(lrows[k].count == self.levels@[k].1);
                assert(1 <= self.levels@[k].1 <= total);
                lemma_permille_bound(self.levels@[k].1 as int, total as int);
                assert(lrows[k].permille == permille_of(lrows[k].count as int, total as int)
                    as usize);
            }
        }
        r
    }
}

/// The report is a function of the accumulated data alone: two
/// accumulators holding equal statistics are rendered identically,
/// section for section.  `analyze_lines` pins the accumulated data as
/// `spec_run` of the input lines, so with `build_report`'s contract,
/// running the analysis twice over the same lines yields equal reports.
pub proof fn lemma_report_deterministic(a: LogStats, b: LogStats)
    requires
        a.model() == b.model(),
    ensures
        spec_sort(level_rows(a.levels@, a.total_lines as int)) == spec_sort(
            level_rows(b.levels@, b.total_lines as int),
        ),
        spec_sort(code_rows(a.status_codes@)) == spec_sort(code_rows(b.status_codes@)),
        vsort(a.ips_model()) == vsort(b.ips_model()),
        spec_recent(a.errors.deep_view()) == spec_recent(b.errors.deep_view()),
        spec_recent(a.warnings.deep_view()) == spec_recent(b.warnings.deep_view()),
{
}

} // verus!
