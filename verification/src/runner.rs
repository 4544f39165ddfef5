//! The integration-test runner: suites of named cases, selected by a
//! case-insensitive name filter, and the TAP report of a run.

use vstd::prelude::*;

use crate::text::{contains_seq, contains_str, occurs_at, decimal, decimal_string, lowercase, split_lines, text_lines, to_lowercase};

verus! {

/// Configuration passed to the test runner.
#[derive(Clone, Debug)]
pub struct RunConfig {
    /// Base URL of the server under test (e.g. `http://localhost:3000/`).
    pub base_url: String,
    /// Optional substring filter; only suites whose name contains this value
    /// are executed (case-insensitive).
    pub filter: Option<String>,
    /// When `true`, print every request/response line even for passing tests.
    pub verbose: bool,
    /// Per-request timeout in milliseconds.
    pub timeout_ms: u64,
}

/// A single test case: a name and the work that runs it.
pub struct Case<R> {
    pub name: String,
    pub run: R,
}

/// A named group of test cases.
pub struct Suite<R> {
    pub name: String,
    pub cases: Vec<Case<R>>,
}

/// Owns the configuration and the suites selected to run.
pub struct TestSuite<R> {
    config: RunConfig,
    suites: Vec<Suite<R>>,
}

/// A suite runs under `filter` when there is no filter, or when the
/// lower-cased filter occurs in the lower-cased suite name.
pub open spec fn suite_selected(name: Seq<char>, filter: Option<Seq<char>>) -> bool {
    match filter {
        None => true,
        Some(f) => contains_seq(lowercase(name), lowercase(f)),
    }
}

/// The suites of `all` that run under `filter`, in their input order.
pub open spec fn select_suites<R>(all: Seq<Suite<R>>, filter: Option<Seq<char>>) -> Seq<Suite<R>>
    decreases all.len(),
{
    if all.len() == 0 {
        Seq::empty()
    } else {
        let rest = select_suites(all.drop_first(), filter);
        if suite_selected(all[0].name@, filter) {
            seq![all[0]] + rest
        } else {
            rest
        }
    }
}

/// The view of an optional filter string.
pub open spec fn filter_view(filter: Option<String>) -> Option<Seq<char>> {
    match filter {
        Some(f) => Some(f@),
        None => None,
    }
}

/// The lower-cased names of `suites`, in order.
pub open spec fn lowered_names<R>(suites: Seq<Suite<R>>) -> Seq<Seq<char>>
    decreases suites.len(),
{
    if suites.len() == 0 {
        Seq::empty()
    } else {
        lowered_names(suites.drop_last()).push(lowercase(suites.last().name@))
    }
}

/// The suites of `all` that run when the lower-cased name of `all[i]` is
/// `lower_names[i]` and the lower-cased filter is `lower_filter`: those
/// whose lower-cased name contains the lower-cased filter, or all of them
/// without a filter.
pub open spec fn select_lowered<R>(
    all: Seq<Suite<R>>,
    lower_names: Seq<Seq<char>>,
    lower_filter: Option<Seq<char>>,
) -> Seq<Suite<R>>
    decreases all.len(),
{
    if all.len() == 0 {
        Seq::empty()
    } else {
        let rest = select_lowered(all.drop_first(), lower_names.drop_first(), lower_filter);
        let keep = match lower_filter {
            None => true,
            Some(lf) => contains_seq(lower_names[0], lf),
        };
        if keep {
            seq![all[0]] + rest
        } else {
            rest
        }
    }
}

proof fn lemma_lowered_names<R>(all: Seq<Suite<R>>)
    ensures
        lowered_names(all).len() == all.len(),
        forall|i: int| 0 <= i < all.len() ==> #[trigger] lowered_names(all)[i] == lowercase(all[i].name@),
    decreases all.len(),
{
    if all.len() > 0 {
        lemma_lowered_names(all.drop_last());
    }
}

/// Selecting by lower-cased names and filter is selecting by the filter.
proof fn lemma_select_lowered<R>(all: Seq<Suite<R>>, filter: Option<Seq<char>>)
    ensures
        select_lowered(
            all,
            lowered_names(all),
            match filter {
                Some(f) => Some(lowercase(f)),
                None => None,
            },
        ) == select_suites(all, filter),
    decreases all.len(),
{
    if all.len() > 0 {
        lemma_lowered_names(all);
        lemma_lowered_names(all.drop_first());
        assert(lowered_names(all).drop_first() =~= lowered_names(all.drop_first()));
        lemma_select_lowered(all.drop_first(), filter);
    }
}

/// Keep the suites of `all` that run, given the lower-cased name of each
/// suite (`lower_names[i]` for `all[i]`) and the lower-cased filter.
pub fn select_by_lowered_names<R>(
    all: Vec<Suite<R>>,
    lower_names: &Vec<String>,
    lower_filter: Option<&str>,
) -> (kept: Vec<Suite<R>>)
    requires
        lower_names.len() == all.len(),
    ensures
        kept@ == select_lowered(
            all@,
            string_views(lower_names@),
            match lower_filter {
                Some(f) => Some(f@),
                None => None,
            },
        ),
{
    let ghost lf = match lower_filter {
        Some(f) => Some(f@),
        None => None::<Seq<char>>,
    };
    let ghost names = string_views(lower_names@);
    let mut rest = all;
    let mut kept: Vec<Suite<R>> = Vec::new();
    let mut j: usize = 0;
    assert(names.skip(0) =~= names);
    while rest.len() > 0
        invariant
            j + rest.len() == all.len(),
            lower_names.len() == all.len(),
            names == string_views(lower_names@),
            kept@ + select_lowered(rest@, names.skip(j as int), lf) == select_lowered(all@, names, lf),
            lf == match lower_filter {
                Some(f) => Some(f@),
                None => None::<Seq<char>>,
            },
        decreases rest.len(),
    {
        let ghost before = rest@;
        let s = rest.remove(0);
        assert(rest@ =~= before.drop_first());
        assert(names.skip(j as int).drop_first() =~= names.skip(j + 1));
        assert(names.skip(j as int)[0] == lower_names@[j as int]@);
        let keep = match lower_filter {
            Some(f) => contains_str(lower_names[j].as_str(), f),
            None => true,
        };
        let ghost old_kept = kept@;
        if keep {
            kept.push(s);
        }
        assert(kept@ + select_lowered(rest@, names.skip(j + 1), lf) =~= old_kept + select_lowered(
            before,
            names.skip(j as int),
            lf,
        ));
        j += 1;
    }
    assert(kept@ =~= select_lowered(all@, names, lf));
    kept
}

impl<R> TestSuite<R> {
    /// The configuration the runner was built from.
    pub closed spec fn config_view(&self) -> RunConfig {
        self.config
    }

    /// The suites selected to run, in order.
    pub closed spec fn selected(&self) -> Seq<Suite<R>> {
        self.suites@
    }

    /// Build the runner from `config` and every known suite, keeping the
    /// suites that the configured name filter selects.
    pub fn new(config: RunConfig, all: Vec<Suite<R>>) -> (r: Self)
        ensures
            r.config_view() == config,
            r.selected() == select_suites(all@, filter_view(config.filter)),
    {
        let ghost f = filter_view(config.filter);
        let lower_filter: Option<String> = match &config.filter {
            Some(f) => Some(to_lowercase(f.as_str())),
            None => None,
        };
        let mut lower_names: Vec<String> = Vec::new();
        for i in 0..all.len()
            invariant
                string_views(lower_names@) == lowered_names(all@.take(i as int)),
        {
            let ghost prev = lower_names@;
            lower_names.push(to_lowercase(all[i].name.as_str()));
            assert(string_views(lower_names@) =~= string_views(prev).push(lowercase(all@[i as int].name@)));
            assert(all@.take(i + 1).drop_last() =~= all@.take(i as int));
        }
        assert(all@.take(all.len() as int) =~= all@);
        let ghost lf = filter_view(lower_filter);
        assert(lf == match f {
            Some(fv) => Some(lowercase(fv)),
            None => None::<Seq<char>>,
        });
        proof {
            lemma_select_lowered(all@, f);
            lemma_lowered_names(all@);
            assert(lower_names@.len() == string_views(lower_names@).len());
        }
        let kept = match &lower_filter {
            Some(lf) => select_by_lowered_names(all, &lower_names, Some(lf.as_str())),
            None => select_by_lowered_names(all, &lower_names, None),
        };
        TestSuite { config, suites: kept }
    }

    /// The configuration the runner was built from.
    pub fn config(&self) -> (c: &RunConfig)
        ensures
            *c == self.config_view(),
    {
        &self.config
    }

    /// The suites selected to run.
    pub fn suites(&self) -> (s: &Vec<Suite<R>>)
        ensures
            s@ == self.selected(),
    {
        &self.suites
    }

    /// Hands over the selected suites, to run them.
    pub fn into_suites(self) -> (s: Vec<Suite<R>>)
        ensures
            s@ == self.selected(),
    {
        self.suites
    }
}

/// Construct a [`Case`] from a name and the function that starts its work.
pub fn case<R, F: FnOnce() -> R>(name: String, f: F) -> (c: Case<R>)
    requires
        f.requires(()),
    ensures
        c.name == name,
        f.ensures((), c.run),
{
    Case { name, run: f() }
}

// ── TAP report ───────────────────────────────────────────────────────────
/// The first line of a TAP report.
pub open spec fn tap_header() -> Seq<char> {
    "TAP version 14"@
}

/// The comment line that opens a suite.
pub open spec fn suite_heading(name: Seq<char>) -> Seq<char> {
    "# "@ + name
}

/// The lines reporting case number `n` named `name`, which passed when
/// `error` is `None` and otherwise failed with that error message.
pub open spec fn case_lines(n: nat, name: Seq<char>, error: Option<Seq<char>>) -> Seq<Seq<char>> {
    match error {
        None => seq!["ok "@ + decimal(n) + " - "@ + name],
        Some(e) => seq!["not ok "@ + decimal(n) + " - "@ + name, "  ---"@] + text_lines(e).map_values(
            |l: Seq<char>| "  "@ + l,
        ) + seq!["  ..."@],
    }
}

/// The closing lines of a report over `count` cases of which `failed` failed.
pub open spec fn summary_lines(count: nat, failed: nat) -> Seq<Seq<char>> {
    seq![
        "1.."@ + decimal(count),
        "# passed: "@ + decimal((count - failed) as nat) + "  failed: "@ + decimal(failed),
    ]
}

/// The views of a vector of strings.
pub open spec fn string_views(v: Seq<String>) -> Seq<Seq<char>> {
    v.map_values(|l: String| l@)
}

/// Counts the cases of a run and formats its TAP report.
#[derive(Debug)]
pub struct TapReport {
    counter: usize,
    failures: usize,
}

impl TapReport {
    #[verifier::type_invariant]
    spec fn inv(self) -> bool {
        self.failures <= self.counter
    }

    /// Number of cases recorded so far.
    pub closed spec fn count(&self) -> nat {
        self.counter as nat
    }

    /// Number of failed cases recorded so far.
    pub closed spec fn failed(&self) -> nat {
        self.failures as nat
    }

    /// A report with no cases yet.
    pub fn new() -> (r: Self)
        ensures
            r.count() == 0,
            r.failed() == 0,
            r.failed() <= r.count(),
    {
        TapReport { counter: 0, failures: 0 }
    }

    /// The first line of the report.
    pub fn header() -> (line: String)
        ensures
            line@ == tap_header(),
    {
        String::from_str("TAP version 14")
    }

    /// The line that opens the suite `name`.
    pub fn suite_line(name: &str) -> (line: String)
        ensures
            line@ == suite_heading(name@),
    {
        let mut line = String::from_str("# ");
        line.append(name);
        line
    }

    /// Records the outcome of the next case and returns the lines that
    /// report it; `error` holds the failure message of a failed case.
    pub fn record(&mut self, name: &str, error: Option<&str>) -> (lines: Vec<String>)
        requires
            old(self).count() < usize::MAX,
        ensures
            final(self).count() == old(self).count() + 1,
            final(self).failed() <= final(self).count(),
            final(self).failed() == old(self).failed() + if error is Some {
                1nat
            } else {
                0nat
            },
            string_views(lines@) == case_lines(
                final(self).count(),
                name@,
                match error {
                    Some(e) => Some(e@),
                    None => None,
                },
            ),
    {
        proof {
            use_type_invariant(&*self);
        }
        self.counter = self.counter + 1;
        let number = decimal_string(self.counter);
        let mut lines: Vec<String> = Vec::new();
        match error {
            None => {
                let mut line = String::from_str("ok ");
                line.append(number.as_str());
                line.append(" - ");
                line.append(name);
                lines.push(line);
                assert(string_views(lines@) =~= case_lines(self.counter as nat, name@, None));
            },
            Some(e) => {
                self.failures = self.failures + 1;
                let mut line = String::from_str("not ok ");
                line.append(number.as_str());
                line.append(" - ");
                line.append(name);
                lines.push(line);
                lines.push(String::from_str("  ---"));
                let body = split_lines(e);
                let ghost head = string_views(lines@);
                let ghost body_view = text_lines(e@);
                let mut i: usize = 0;
                while i < body.len()
                    invariant
                        i <= body.len(),
                        string_views(body@) == body_view,
                        string_views(lines@) == head + body_view.take(i as int).map_values(
                            |l: Seq<char>| "  "@ + l,
                        ),
                    decreases body.len() - i,
                {
                    let mut line = String::from_str("  ");
                    line.append(body[i].as_str());
                    let ghost prev = string_views(lines@);
                    lines.push(line);
                    assert(body_view[i as int] == body@[i as int]@);
                    assert(string_views(lines@) =~= prev.push(line@));
                    assert(body_view.take(i + 1).map_values(|l: Seq<char>| "  "@ + l) =~= body_view.take(
                        i as int,
                    ).map_values(|l: Seq<char>| "  "@ + l).push("  "@ + body_view[i as int]));
                    i += 1;
                }
                assert(body_view.take(i as int) =~= body_view);
                let ghost mid = string_views(lines@);
                lines.push(String::from_str("  ..."));
                assert(string_views(lines@) =~= mid.push("  ..."@));
                assert(string_views(lines@) =~= case_lines(self.counter as nat, name@, Some(e@)));
            },
        }
        lines
    }

    /// The closing lines of the report: the plan and the pass/fail tally.
    pub fn summary(&self) -> (lines: Vec<String>)
        ensures
            string_views(lines@) == summary_lines(self.count(), self.failed()),
            self.failed() <= self.count(),
    {
        proof {
            use_type_invariant(self);
        }
        let mut plan = String::from_str("1..");
        plan.append(decimal_string(self.counter).as_str());
        let mut tally = String::from_str("# passed: ");
        tally.append(decimal_string(self.counter - self.failures).as_str());
        tally.append("  failed: ");
        tally.append(decimal_string(self.failures).as_str());
        let mut lines: Vec<String> = Vec::new();
        lines.push(plan);
        lines.push(tally);
        assert(string_views(lines@) =~= summary_lines(self.count(), self.failed()));
        lines
    }

    /// Number of cases recorded so far.
    pub fn recorded(&self) -> (n: usize)
        ensures
            n == self.count(),
    {
        self.counter
    }

    /// Whether every recorded case passed.
    pub fn all_passed(&self) -> (b: bool)
        ensures
            b == (self.failed() == 0),
            self.failed() <= self.count(),
    {
        proof {
            use_type_invariant(self);
        }
        self.failures == 0
    }
}

// ── laws ─────────────────────────────────────────────────────────────────
/// Without a filter every suite runs, in its input order.
pub proof fn law_no_filter_selects_all<R>(all: Seq<Suite<R>>)
    ensures
        select_suites(all, None) == all,
    decreases all.len(),
{
    if all.len() > 0 {
        law_no_filter_selects_all(all.drop_first());
        assert(seq![all[0]] + all.drop_first() =~= all);
    }
}

/// The suites that run are suites of the input that the filter selects,
/// in their input order: the selection is a subsequence of the input.
pub proof fn law_selection_is_subsequence<R>(all: Seq<Suite<R>>, filter: Option<Seq<char>>)
    ensures
        select_suites(all, filter).len() <= all.len(),
        forall|i: int|
            0 <= i < select_suites(all, filter).len() ==> suite_selected(
                #[trigger] select_suites(all, filter)[i].name@,
                filter,
            ),
        exists|idx: Seq<int>|
            {
                &&& idx.len() == select_suites(all, filter).len()
                &&& forall|i: int| 0 <= i < idx.len() ==> 0 <= #[trigger] idx[i] < all.len()
                &&& forall|i: int|
                    0 <= i < idx.len() ==> all[idx[i]] == #[trigger] select_suites(all, filter)[i]
                &&& forall|i: int, j: int| 0 <= i < j < idx.len() ==> #[trigger] idx[i] < #[trigger] idx[j]
            },
    decreases all.len(),
{
    let sel = select_suites(all, filter);
    if all.len() == 0 {
        let idx = Seq::<int>::empty();
        assert(idx.len() == sel.len());
    } else {
        let rest = all.drop_first();
        law_selection_is_subsequence(rest, filter);
        let rsel = select_suites(rest, filter);
        let ridx = choose|idx: Seq<int>|
            {
                &&& idx.len() == rsel.len()
                &&& forall|i: int| 0 <= i < idx.len() ==> 0 <= #[trigger] idx[i] < rest.len()
                &&& forall|i: int| 0 <= i < idx.len() ==> rest[idx[i]] == #[trigger] rsel[i]
                &&& forall|i: int, j: int| 0 <= i < j < idx.len() ==> #[trigger] idx[i] < #[trigger] idx[j]
            };
        let shifted = ridx.map_values(|x: int| x + 1);
        if suite_selected(all[0].name@, filter) {
            let idx = seq![0int] + shifted;
            assert(sel =~= seq![all[0]] + rsel);
            assert forall|i: int| 0 <= i < idx.len() implies all[idx[i]] == #[trigger] sel[i] by {
                if i > 0 {
                    assert(idx[i] == ridx[i - 1] + 1);
                    assert(rest[ridx[i - 1]] == rsel[i - 1]);
                }
            }
            assert forall|i: int, j: int| 0 <= i < j < idx.len() implies #[trigger] idx[i] < #[trigger] idx[j] by {
                if i > 0 {
                    assert(ridx[i - 1] < ridx[j - 1]);
                } else {
                    assert(0 <= ridx[j - 1]);
                }
            }
            assert forall|i: int| 0 <= i < sel.len() implies suite_selected(#[trigger] sel[i].name@, filter) by {
                if i > 0 {
                    assert(sel[i] == rsel[i - 1]);
                }
            }
            assert(idx.len() == sel.len());
            assert(forall|i: int| 0 <= i < idx.len() ==> 0 <= #[trigger] idx[i] < all.len());
        } else {
            assert(sel == rsel);
            assert forall|i: int| 0 <= i < shifted.len() implies all[shifted[i]] == #[trigger] sel[i] by {
                assert(rest[ridx[i]] == rsel[i]);
            }
            assert forall|i: int, j: int| 0 <= i < j < shifted.len() implies #[trigger] shifted[i] < #[trigger] shifted[j] by {
                assert(ridx[i] < ridx[j]);
            }
            assert(shifted.len() == sel.len());
            assert(forall|i: int| 0 <= i < shifted.len() ==> 0 <= #[trigger] shifted[i] < all.len());
        }
    }
}

spec fn occurs_in<R>(lower_names: Seq<Seq<char>>, lower_filter: Seq<char>, j: int) -> bool {
    exists|p: int|
        0 <= p && p + lower_filter.len() <= lower_names[j].len() && #[trigger] lower_names[j].subrange(
            p,
            p + lower_filter.len(),
        ) == lower_filter
}

spec fn selection_index<R>(
    all: Seq<Suite<R>>,
    lower_names: Seq<Seq<char>>,
    lower_filter: Seq<char>,
    idx: Seq<int>,
) -> bool {
    &&& idx.len() == select_lowered(all, lower_names, Some(lower_filter)).len()
    &&& forall|i: int| 0 <= i < idx.len() ==> 0 <= #[trigger] idx[i] < all.len()
    &&& forall|i: int|
        0 <= i < idx.len() ==> all[idx[i]] == #[trigger] select_lowered(
            all,
            lower_names,
            Some(lower_filter),
        )[i]
    &&& forall|i: int, j: int| 0 <= i < j < idx.len() ==> #[trigger] idx[i] < #[trigger] idx[j]
    &&& forall|j: int|
        0 <= j < all.len() ==> (#[trigger] occurs_in::<R>(lower_names, lower_filter, j) <==> (exists|i: int|
            0 <= i < idx.len() && #[trigger] idx[i] == j))
}

proof fn lemma_selection_index<R>(
    all: Seq<Suite<R>>,
    lower_names: Seq<Seq<char>>,
    lower_filter: Seq<char>,
) -> (idx: Seq<int>)
    requires
        lower_names.len() == all.len(),
    ensures
        select_lowered(all, lower_names, None) == all,
        selection_index(all, lower_names, lower_filter, idx),
    decreases all.len(),
{
    let lf = Some(lower_filter);
    let sel = select_lowered(all, lower_names, lf);
    if all.len() == 0 {
        assert(select_lowered(all, lower_names, None) =~= all);
        Seq::<int>::empty()
    } else {
        let rest = all.drop_first();
        let rnames = lower_names.drop_first();
        let ridx = lemma_selection_index(rest, rnames, lower_filter);
        assert(select_lowered(all, lower_names, None) =~= all);
        let rsel = select_lowered(rest, rnames, lf);
        let shifted = ridx.map_values(|x: int| x + 1);
        let keep0 = contains_seq(lower_names[0], lower_filter);
        assert(keep0 == occurs_in::<R>(lower_names, lower_filter, 0)) by {
            if keep0 {
                let p = choose|p: int| occurs_at(lower_names[0], lower_filter, p);
                assert(lower_names[0].subrange(p, p + lower_filter.len()) == lower_filter);
            }
            if occurs_in::<R>(lower_names, lower_filter, 0) {
                let p = choose|p: int|
                    0 <= p && p + lower_filter.len() <= lower_names[0].len()
                        && #[trigger] lower_names[0].subrange(p, p + lower_filter.len())
                        == lower_filter;
                assert(occurs_at(lower_names[0], lower_filter, p));
            }
        }
        assert forall|j: int| 1 <= j < all.len() implies #[trigger] occurs_in::<R>(
            lower_names,
            lower_filter,
            j,
        ) == occurs_in::<R>(rnames, lower_filter, j - 1) by {
            assert(rnames[j - 1] == lower_names[j]);
        }
        let idx = if keep0 {
            seq![0int] + shifted
        } else {
            shifted
        };
        assert(sel == (if keep0 {
            seq![all[0]] + rsel
        } else {
            rsel
        }));
        let off: int = if keep0 {
            1
        } else {
            0
        };
        assert(idx.len() == sel.len());
        assert forall|i: int| off <= i < idx.len() implies idx[i] == ridx[i - off] + 1 && sel[i]
            == rsel[i - off] by {}
        assert forall|i: int| 0 <= i < idx.len() implies 0 <= #[trigger] idx[i] < all.len() by {
            if i >= off {
                assert(0 <= ridx[i - off] < rest.len());
            }
        }
        assert forall|i: int| 0 <= i < idx.len() implies all[idx[i]] == #[trigger] sel[i] by {
            if i >= off {
                assert(rest[ridx[i - off]] == rsel[i - off]);
            }
        }
        assert forall|i: int, j: int| 0 <= i < j < idx.len() implies #[trigger] idx[i]
            < #[trigger] idx[j] by {
            if i >= off {
                assert(ridx[i - off] < ridx[j - off]);
            } else {
                assert(0 <= ridx[j - off]);
            }
        }
        assert forall|j: int| 0 <= j < all.len() implies (#[trigger] occurs_in::<R>(
            lower_names,
            lower_filter,
            j,
        ) <==> (exists|i: int| 0 <= i < idx.len() && #[trigger] idx[i] == j)) by {
            if j == 0 {
                if keep0 {
                    assert(idx[0] == 0);
                }
                if exists|i: int| 0 <= i < idx.len() && #[trigger] idx[i] == j {
                    let i = choose|i: int| 0 <= i < idx.len() && #[trigger] idx[i] == j;
                    if i >= off {
                        assert(idx[i] == ridx[i - off] + 1);
                        assert(0 <= ridx[i - off]);
                    }
                }
            } else {
                if occurs_in::<R>(lower_names, lower_filter, j) {
                    assert(occurs_in::<R>(rnames, lower_filter, j - 1));
                    let i = choose|i: int| 0 <= i < ridx.len() && #[trigger] ridx[i] == j - 1;
                    assert(idx[i + off] == j);
                }
                if exists|i: int| 0 <= i < idx.len() && #[trigger] idx[i] == j {
                    let i = choose|i: int| 0 <= i < idx.len() && #[trigger] idx[i] == j;
                    if i < off {
                        assert(idx[i] == 0);
                    } else {
                        assert(ridx[i - off] == j - 1);
                    }
                }
            }
        }
        idx
    }
}

spec fn first_witness(name: Seq<char>, lower_filter: Seq<char>) -> int {
    choose|p: int|
        0 <= p && p + lower_filter.len() <= name.len() && #[trigger] name.subrange(
            p,
            p + lower_filter.len(),
        ) == lower_filter
}

proof fn lemma_selection_holders<R>(
    all: Seq<Suite<R>>,
    lower_names: Seq<Seq<char>>,
    lower_filter: Seq<char>,
    idx: Seq<int>,
) -> (pos: Seq<int>)
    requires
        selection_index(all, lower_names, lower_filter, idx),
    ensures
        pos.len() == idx.len(),
        forall|i: int|
            0 <= i < idx.len() ==> 0 <= #[trigger] pos[i] && pos[i] + lower_filter.len()
                <= lower_names[idx[i]].len() && lower_names[idx[i]].subrange(
                pos[i],
                pos[i] + lower_filter.len(),
            ) == lower_filter,
        forall|j: int, p: int|
            0 <= j < all.len() && 0 <= p && p + lower_filter.len() <= lower_names[j].len()
                && #[trigger] lower_names[j].subrange(p, p + lower_filter.len()) == lower_filter
                ==> exists|i: int| 0 <= i < idx.len() && #[trigger] idx[i] == j,
{
    let pos = Seq::new(idx.len(), |i: int| first_witness(lower_names[idx[i]], lower_filter));
    assert forall|i: int| 0 <= i < idx.len() implies 0 <= #[trigger] pos[i] && pos[i]
        + lower_filter.len() <= lower_names[idx[i]].len() && lower_names[idx[i]].subrange(
        pos[i],
        pos[i] + lower_filter.len(),
    ) == lower_filter by {
        assert(0 <= idx[i] < all.len());
        assert(exists|i2: int| 0 <= i2 < idx.len() && #[trigger] idx[i2] == idx[i]);
        assert(occurs_in::<R>(lower_names, lower_filter, idx[i]));
    }
    assert forall|j: int, p: int|
        0 <= j < all.len() && 0 <= p && p + lower_filter.len() <= lower_names[j].len()
            && #[trigger] lower_names[j].subrange(p, p + lower_filter.len())
            == lower_filter implies exists|i: int| 0 <= i < idx.len() && #[trigger] idx[i] == j by {
        assert(occurs_in::<R>(lower_names, lower_filter, j));
    }
    pos
}

/// With a lower-cased filter, the suites kept are, in input order, exactly
/// those whose lower-cased name holds the whole lower-cased filter as a
/// contiguous piece (`idx` gives where each kept suite stands in the input,
/// `pos` where the filter stands in its name); without a filter every
/// suite is kept.
pub proof fn law_selection_by_lowered_names<R>(
    all: Seq<Suite<R>>,
    lower_names: Seq<Seq<char>>,
    lower_filter: Seq<char>,
)
    requires
        lower_names.len() == all.len(),
    ensures
        select_lowered(all, lower_names, None) == all,
        exists|idx: Seq<int>, pos: Seq<int>|
            {
                &&& idx.len() == select_lowered(all, lower_names, Some(lower_filter)).len()
                &&& pos.len() == idx.len()
                &&& forall|i: int| 0 <= i < idx.len() ==> 0 <= #[trigger] idx[i] < all.len()
                &&& forall|i: int|
                    0 <= i < idx.len() ==> all[idx[i]] == #[trigger] select_lowered(
                        all,
                        lower_names,
                        Some(lower_filter),
                    )[i]
                &&& forall|i: int, j: int|
                    0 <= i < j < idx.len() ==> #[trigger] idx[i] < #[trigger] idx[j]
                &&& forall|i: int|
                    0 <= i < idx.len() ==> 0 <= #[trigger] pos[i] && pos[i] + lower_filter.len()
                        <= lower_names[idx[i]].len() && lower_names[idx[i]].subrange(
                        pos[i],
                        pos[i] + lower_filter.len(),
                    ) == lower_filter
                &&& forall|j: int, p: int|
                    0 <= j < all.len() && 0 <= p && p + lower_filter.len() <= lower_names[j].len()
                        && #[trigger] lower_names[j].subrange(p, p + lower_filter.len())
                        == lower_filter ==> exists|i: int| 0 <= i < idx.len() && #[trigger] idx[i] == j
            },
{
    let idx = lemma_selection_index(all, lower_names, lower_filter);
    let pos = lemma_selection_holders(all, lower_names, lower_filter, idx);
}

/// A suite runs under a filter exactly when its lower-cased name holds the
/// whole lower-cased filter as a contiguous piece, and always without one.
pub proof fn law_suite_selected_by_whole_filter(name: Seq<char>, filter: Seq<char>, p: int)
    ensures
        suite_selected(name, None),
        0 <= p && p + lowercase(filter).len() <= lowercase(name).len() && lowercase(name).subrange(
            p,
            p + lowercase(filter).len(),
        ) == lowercase(filter) ==> suite_selected(name, Some(filter)),
        suite_selected(name, Some(filter)) ==> exists|q: int|
            0 <= q && q + lowercase(filter).len() <= lowercase(name).len() && #[trigger] lowercase(
                name,
            ).subrange(q, q + lowercase(filter).len()) == lowercase(filter),
{
    if 0 <= p && p + lowercase(filter).len() <= lowercase(name).len() && lowercase(name).subrange(
        p,
        p + lowercase(filter).len(),
    ) == lowercase(filter) {
        assert(occurs_at(lowercase(name), lowercase(filter), p));
    }
    if suite_selected(name, Some(filter)) {
        let q = choose|q: int| occurs_at(lowercase(name), lowercase(filter), q);
        assert(lowercase(name).subrange(q, q + lowercase(filter).len()) =~= lowercase(filter));
    }
}

/// The summary of a report plans all recorded cases and tallies them: the
/// passed and failed numbers it prints add up to the number of cases.
pub proof fn law_summary_tally(count: nat, failed: nat, passed: nat)
    requires
        passed + failed == count,
    ensures
        summary_lines(count, failed).len() == 2,
        summary_lines(count, failed)[0] == seq!['1', '.', '.'] + decimal(count),
        summary_lines(count, failed)[1] == seq!['#', ' ', 'p', 'a', 's', 's', 'e', 'd', ':', ' ']
            + decimal(passed) + seq![' ', ' ', 'f', 'a', 'i', 'l', 'e', 'd', ':', ' '] + decimal(
            failed,
        ),
{
    reveal_strlit("1..");
    reveal_strlit("# passed: ");
    reveal_strlit("  failed: ");
    assert("1.."@ =~= seq!['1', '.', '.']);
    assert("# passed: "@ =~= seq!['#', ' ', 'p', 'a', 's', 's', 'e', 'd', ':', ' ']);
    assert("  failed: "@ =~= seq![' ', ' ', 'f', 'a', 'i', 'l', 'e', 'd', ':', ' ']);
}

/// The report of a case: its first line is the status (`ok` or `not ok`),
/// the case number and the whole case name, whatever its length; a failed
/// case's message follows line by line, indented by two spaces, between
/// `  ---` and `  ...`.
pub proof fn law_case_report(n: nat, name: Seq<char>, message: Seq<char>)
    ensures
        case_lines(n, name, None) == seq![
            seq!['o', 'k', ' '] + decimal(n) + seq![' ', '-', ' '] + name,
        ],
        case_lines(n, name, Some(message)).len() == text_lines(message).len() + 3,
        case_lines(n, name, Some(message))[0] == seq!['n', 'o', 't', ' ', 'o', 'k', ' '] + decimal(n)
            + seq![' ', '-', ' '] + name,
        case_lines(n, name, Some(message))[1] == seq![' ', ' ', '-', '-', '-'],
        forall|i: int|
            0 <= i < text_lines(message).len() ==> case_lines(n, name, Some(message))[i + 2]
                == seq![' ', ' '] + #[trigger] text_lines(message)[i],
        case_lines(n, name, Some(message))[text_lines(message).len() + 2int] == seq![
            ' ',
            ' ',
            '.',
            '.',
            '.',
        ],
{
    reveal_strlit("ok ");
    reveal_strlit("not ok ");
    reveal_strlit(" - ");
    reveal_strlit("  ---");
    reveal_strlit("  ...");
    reveal_strlit("  ");
    assert("ok "@ =~= seq!['o', 'k', ' ']);
    assert("not ok "@ =~= seq!['n', 'o', 't', ' ', 'o', 'k', ' ']);
    assert(" - "@ =~= seq![' ', '-', ' ']);
    assert("  ---"@ =~= seq![' ', ' ', '-', '-', '-']);
    assert("  ..."@ =~= seq![' ', ' ', '.', '.', '.']);
    assert("  "@ =~= seq![' ', ' ']);
}

/// A suite's heading is `# ` followed by the whole suite name.
pub proof fn law_suite_heading(name: Seq<char>)
    ensures
        suite_heading(name) == seq!['#', ' '] + name,
{
    reveal_strlit("# ");
    assert("# "@ =~= seq!['#', ' ']);
}

} // verus!
