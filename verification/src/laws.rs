//! What holds of a whole report, whatever it is told on the way.
use vstd::prelude::*;

use crate::catalog::scale_pattern_of;
use crate::date::utc_date;
use crate::logs::{metric_of, number_text, scale_of, LogError};
use crate::report::{
    after_move, commit_time_of, known_of, scale_in_log, start_of, step_of, when_formatted,
    when_metric_fetched, when_scale_fetched, when_shown, when_started, BuildRowView, Column,
    CommitTimeError, KnownView, MoveView, ReplyView, ReportView, RowError, StageView,
};
use crate::results::{
    filed, law_empty_is_filed, law_filed_result_is_found, law_filing_keeps_order,
    law_filing_lists_nothing, law_listing_is_complete, law_listing_keeps_all, law_newest_first,
    listed, listed_branches, listed_times, newest_first, times_at, unlisted, with_result,
    ResultsByScaleView, TestResultView,
};
use crate::text::{
    byte_prefix, i64_of, leading_digits, lemma_digits_value_grows, lemma_leading_digits_prefix,
    strip, u32_of, utf8_of, Edge, IntError,
};

verus! {

/// All that a report can be told of one build.
pub struct Facts {
    /// What is shown of the build's commit.
    pub commit: Seq<u8>,
    /// The log that holds the scale factor.
    pub scale_log: Seq<u8>,
    /// The log that holds the metric.
    pub metric_log: Seq<u8>,
    /// The metric's final form.
    pub metric: Seq<char>,
}

/// What becomes of a build.
pub enum Outcome {
    /// It is left out.
    Left,
    /// It has this result.
    Result(TestResultView),
    /// It has no result, and there is no report.
    Failed(RowError),
}

/// The scale factor of a build: its own, or, where that is `0`, the one in the log.
pub open spec fn scale_outcome(test: Seq<char>, row: BuildRowView, facts: Facts) -> Result<
    int,
    RowError,
> {
    if !scale_in_log(row) {
        match u32_of(row.scale) {
            Err(e) => Err(RowError::ScaleNotNumber(e)),
            Ok(n) => Ok(n),
        }
    } else if row.log_test_id is None {
        Err(RowError::Missing(Column::LogTestId))
    } else {
        match scale_of(test, facts.scale_log) {
            Err(e) => Err(RowError::ScaleLog(e)),
            Ok(n) => Ok(n),
        }
    }
}

/// What becomes of a build that has a branch and a revision, and of which this much is known.
pub open spec fn known_outcome(
    test: Seq<char>,
    row: BuildRowView,
    facts: Facts,
    known: KnownView,
) -> Outcome {
    match scale_outcome(test, row, facts) {
        Err(e) => Outcome::Failed(e),
        Ok(scale) => match metric_of(test, facts.metric_log) {
            Err(e) => Outcome::Failed(RowError::MetricLog(e)),
            Ok(_) => match byte_prefix(row.revision->0, 8) {
                None => Outcome::Failed(RowError::RevisionNotCut),
                Some(short) => Outcome::Result(
                    TestResultView {
                        build_number: known.build_number,
                        builder_id: known.builder_id,
                        ctime: known.ctime,
                        metric: facts.metric,
                        revision: short,
                        scale: scale as u32,
                        timestamp: known.timestamp,
                    },
                ),
            },
        },
    }
}

/// What becomes of a build, given all that there is to be told of it.
pub open spec fn outcome(test: Seq<char>, row: BuildRowView, facts: Facts) -> Outcome {
    if row.branch.len() == 0 {
        Outcome::Left
    } else if row.revision is None {
        Outcome::Failed(RowError::Missing(Column::Revision))
    } else {
        match commit_time_of(facts.commit) {
            Err(CommitTimeError::NotUtf8) => Outcome::Failed(RowError::CommitNotUtf8),
            Err(CommitTimeError::NotNumber(_)) => Outcome::Left,
            Ok(ctime) => match utc_date(ctime) {
                None => Outcome::Failed(RowError::CommitTimeOutOfRange),
                Some(date) => match known_of(row, ctime as i64, date) {
                    Err(e) => Outcome::Failed(e),
                    Ok(known) => known_outcome(test, row, facts, known),
                },
            },
        }
    }
}

/// The results of the first `n` builds: each build that has one files it, in turn.
pub open spec fn results_of(
    test: Seq<char>,
    rows: Seq<BuildRowView>,
    facts: Seq<Facts>,
    n: int,
) -> ResultsByScaleView
    decreases n,
{
    if n <= 0 {
        Map::empty()
    } else {
        let before = results_of(test, rows, facts, n - 1);
        match outcome(test, rows[n - 1], facts[n - 1]) {
            Outcome::Result(r) => with_result(before, rows[n - 1].branch, r),
            _ => before,
        }
    }
}

/// Whether none of the first `n` builds fails.
pub open spec fn none_failed(
    test: Seq<char>,
    rows: Seq<BuildRowView>,
    facts: Seq<Facts>,
    n: int,
) -> bool {
    forall|i: int| 0 <= i < n ==> !(#[trigger] outcome(test, rows[i], facts[i]) is Failed)
}

/// Whether `reply` is what the facts say on the thing that the report waits for.
pub open spec fn answers(s: ReportView, facts: Seq<Facts>, reply: ReplyView) -> bool {
    let fact = facts[s.next];
    match s.stage {
        StageView::Ready => reply == ReplyView::Next,
        StageView::Commit => reply == ReplyView::Commit(fact.commit),
        StageView::ScaleLog(_) => reply == ReplyView::Log(fact.scale_log),
        StageView::MetricLog(_, _) => reply == ReplyView::Log(fact.metric_log),
        StageView::Metric(_, _) => reply == ReplyView::Metric(fact.metric),
        StageView::Finished | StageView::Failed(_) => false,
    }
}

/// Whether the build at hand, of which `known` is known, fits the facts so far.
pub open spec fn knows(s: ReportView, facts: Seq<Facts>, known: KnownView) -> bool {
    let row = s.rows[s.next];
    &&& row.branch.len() > 0
    &&& row.revision is Some
    &&& commit_time_of(facts[s.next].commit) == Ok::<int, CommitTimeError>(known.ctime as int)
    &&& utc_date(known.ctime as int) == Some(known.timestamp)
    &&& known_of(row, known.ctime, known.timestamp) == Ok::<KnownView, RowError>(known)
}

/// Whether the report is where the facts take it.
pub open spec fn on_course(s: ReportView, facts: Seq<Facts>) -> bool {
    let row = s.rows[s.next];
    let fact = facts[s.next];
    let results = results_of(s.test, s.rows, facts, s.next);
    &&& s.wf()
    &&& facts.len() == s.rows.len()
    &&& none_failed(s.test, s.rows, facts, s.next)
    &&& s.scales == (if s.stage is Finished {
        listed(results)
    } else {
        results
    })
    &&& match s.stage {
        StageView::Ready => true,
        StageView::Commit => row.branch.len() > 0 && row.revision is Some,
        StageView::ScaleLog(known) => knows(s, facts, known) && scale_in_log(row)
            && row.log_test_id is Some,
        StageView::MetricLog(known, scale) => knows(s, facts, known) && scale_outcome(
            s.test,
            row,
            fact,
        ) == Ok::<int, RowError>(scale as int),
        StageView::Metric(known, scale) => knows(s, facts, known) && scale_outcome(
            s.test,
            row,
            fact,
        ) == Ok::<int, RowError>(scale as int) && metric_of(s.test, fact.metric_log) is Ok,
        StageView::Finished => s.next == s.rows.len(),
        StageView::Failed(e) => outcome(s.test, row, fact) == Outcome::Failed(e),
    }
}

/// A new report is on course.
pub proof fn law_start_is_on_course(
    url: Seq<char>,
    test: Seq<char>,
    rows: Seq<BuildRowView>,
    facts: Seq<Facts>,
)
    requires
        facts.len() == rows.len(),
    ensures
        on_course(start_of(url, test, rows), facts),
{
}

/// A number that fits into 32 bits.
proof fn lemma_scale_range(test: Seq<char>, row: BuildRowView, facts: Facts)
    ensures
        scale_outcome(test, row, facts) matches Ok(n) ==> 0 <= n <= u32::MAX,
{
    match scale_outcome(test, row, facts) {
        Ok(n) => {
            if !scale_in_log(row) {
                lemma_u32_range(row.scale);
            } else {
                lemma_scale_of_range(test, facts.scale_log);
            }
        },
        Err(_) => {},
    }
}

/// A text is read as a number only when that fits into 32 bits.
pub proof fn lemma_u32_range(s: Seq<char>)
    ensures
        u32_of(s) matches Ok(n) ==> 0 <= n <= u32::MAX,
{
    let body = if s.len() > 0 && s.first() == '+' {
        s.drop_first()
    } else {
        s
    };
    let digits = leading_digits(body);
    lemma_leading_digits_prefix(body);
    lemma_digits_value_grows(digits, digits.len() as int);
    assert(digits.take(digits.len() as int) =~= digits);
}

/// The scale factor in a log fits into 32 bits.
pub proof fn lemma_scale_of_range(test: Seq<char>, log: Seq<u8>)
    ensures
        scale_of(test, log) matches Ok(n) ==> 0 <= n <= u32::MAX,
{
    match number_text(scale_pattern_of(test), log) {
        Ok(number) => lemma_u32_range(number),
        Err(_) => {},
    }
}

proof fn lemma_i64_range(s: Seq<char>)
    ensures
        i64_of(s) matches Ok(n) ==> i64::MIN <= n <= i64::MAX,
{
    let body = if s.len() > 0 && (s.first() == '+' || s.first() == '-') {
        s.drop_first()
    } else {
        s
    };
    let digits = leading_digits(body);
    lemma_leading_digits_prefix(body);
    lemma_digits_value_grows(digits, digits.len() as int);
    assert(digits.take(digits.len() as int) =~= digits);
}

proof fn lemma_commit_time_range(shown: Seq<u8>)
    ensures
        commit_time_of(shown) matches Ok(n) ==> i64::MIN <= n <= i64::MAX,
{
    match utf8_of(shown) {
        Some(text) => lemma_i64_range(strip(strip(text, Edge::WhiteSpace), Edge::Quote)),
        None => {},
    }
}

/// The build at hand is done: it is left out or its result is filed.
#[verifier::spinoff_prover]
proof fn lemma_row_done(s: ReportView, facts: Seq<Facts>, m: MoveView)
    requires
        on_course(s, facts),
        !(s.stage is Finished),
        s.next < s.rows.len(),
        match m {
            MoveView::Leave(_) => outcome(s.test, s.rows[s.next], facts[s.next]) is Left,
            MoveView::Add(r) => outcome(s.test, s.rows[s.next], facts[s.next]) == Outcome::Result(
                r,
            ),
            MoveView::Fail(e) => outcome(s.test, s.rows[s.next], facts[s.next])
                == Outcome::Failed(e),
            MoveView::Ask(_, _) => false,
        },
    ensures
        on_course(after_move(s, m).0, facts),
{
    let t = after_move(s, m).0;
    assert(forall|i: int|
        0 <= i < t.next ==> !(#[trigger] outcome(s.test, s.rows[i], facts[i]) is Failed));
}

/// A report that is on course and is told what the facts say stays on course.
pub proof fn law_step_keeps_course(s: ReportView, facts: Seq<Facts>, reply: ReplyView)
    requires
        on_course(s, facts),
        answers(s, facts, reply),
    ensures
        on_course(step_of(s, reply).0, facts),
{
    let row = s.rows[s.next];
    let fact = facts[s.next];
    match s.stage {
        StageView::Ready => {
            if s.next < s.rows.len() {
                let m = when_started(row);
                if !(m is Ask) {
                    lemma_row_done(s, facts, m);
                }
            }
        },
        StageView::Commit => {
            let m = when_shown(s.buildbot_url, s.test, row, fact.commit);
            match commit_time_of(fact.commit) {
                Ok(ctime) => {
                    lemma_commit_time_range(fact.commit);
                    assert(ctime as i64 == ctime);
                    lemma_scale_range(s.test, row, fact);
                },
                Err(_) => {},
            }
            if !(m is Ask) {
                lemma_row_done(s, facts, m);
            }
        },
        StageView::ScaleLog(known) => {
            let m = when_scale_fetched(s.buildbot_url, s.test, known, fact.scale_log);
            lemma_scale_range(s.test, row, fact);
            if !(m is Ask) {
                lemma_row_done(s, facts, m);
            }
        },
        StageView::MetricLog(known, scale) => {
            let m = when_metric_fetched(s.test, known, scale, fact.metric_log);
            if !(m is Ask) {
                lemma_row_done(s, facts, m);
            }
        },
        StageView::Metric(known, scale) => {
            let m = when_formatted(row.revision, known, scale, fact.metric);
            lemma_row_done(s, facts, m);
        },
        StageView::Finished | StageView::Failed(_) => {},
    }
}

/// A report that has finished holds the results of all its builds, with their lists filled, and
/// none of the builds fails.
pub proof fn law_finished_report(s: ReportView, facts: Seq<Facts>)
    requires
        on_course(s, facts),
        s.stage is Finished,
    ensures
        none_failed(s.test, s.rows, facts, s.rows.len() as int),
        s.scales == listed(results_of(s.test, s.rows, facts, s.rows.len() as int)),
{
}

/// A report that has failed did so at the first build that fails, with that build's error.
pub proof fn law_failed_report(s: ReportView, facts: Seq<Facts>)
    requires
        on_course(s, facts),
        s.stage is Failed,
    ensures
        none_failed(s.test, s.rows, facts, s.next),
        outcome(s.test, s.rows[s.next], facts[s.next]) == Outcome::Failed(s.stage->Failed_0),
{
}

/// How many more answers a report can take at most.
pub open spec fn answers_left(s: ReportView) -> int {
    let rows_left = s.rows.len() - s.next;
    match s.stage {
        StageView::Ready => 5 * rows_left + 1,
        StageView::Commit => 5 * rows_left,
        StageView::ScaleLog(_) => 5 * rows_left - 1,
        StageView::MetricLog(_, _) => 5 * rows_left - 2,
        StageView::Metric(_, _) => 5 * rows_left - 3,
        StageView::Finished | StageView::Failed(_) => 0,
    }
}

/// Each answer brings a report nearer to its end, whatever the answer says.
pub proof fn law_report_ends(s: ReportView, reply: ReplyView)
    requires
        s.wf(),
    ensures
        step_of(s, reply).0.wf(),
        answers_left(s) >= 0,
        answers_left(s) == 0 <==> s.stage is Finished || s.stage is Failed,
        step_of(s, reply).1 is NotAwaited || answers_left(step_of(s, reply).0) < answers_left(s),
        step_of(s, reply).1 is NotAwaited ==> step_of(s, reply).0 == s,
{
}

/// A report that waits for something can be told it.
pub proof fn law_awaited_answer_is_taken(s: ReportView, facts: Seq<Facts>, reply: ReplyView)
    requires
        s.wf(),
        answers(s, facts, reply),
    ensures
        !(step_of(s, reply).1 is NotAwaited),
{
}

/// Every result of a report is filed under its own scale factor and its own commit time, and no
/// list is filled before the end.
pub proof fn law_results_are_filed(
    test: Seq<char>,
    rows: Seq<BuildRowView>,
    facts: Seq<Facts>,
    n: int,
)
    ensures
        filed(results_of(test, rows, facts, n)),
        unlisted(results_of(test, rows, facts, n)),
    decreases n,
{
    if n <= 0 {
        law_empty_is_filed();
    } else {
        law_results_are_filed(test, rows, facts, n - 1);
        match outcome(test, rows[n - 1], facts[n - 1]) {
            Outcome::Result(r) => {
                let before = results_of(test, rows, facts, n - 1);
                law_filing_keeps_order(before, rows[n - 1].branch, r);
                law_filing_lists_nothing(before, rows[n - 1].branch, r);
            },
            _ => {},
        }
    }
}

/// In a finished report the list of a branch at a scale factor holds exactly the results that are
/// filed there, the one with the latest commit time first.
pub proof fn law_finished_lists(s: ReportView, facts: Seq<Facts>, scale: u32, branch: Seq<char>)
    requires
        on_course(s, facts),
        s.stage is Finished,
        s.scales.contains_key(scale),
        s.scales[scale].contains_key(branch),
    ensures
        ({
            let times = s.scales[scale][branch];
            let list = times.reversed;
            &&& list.len() == times.sorted.dom().len()
            &&& forall|i: int, j: int|
                0 <= i < j < list.len() ==> (#[trigger] list[i]).ctime > (#[trigger] list[j]).ctime
            &&& forall|i: int|
                0 <= i < list.len() ==> times.sorted.contains_key((#[trigger] list[i]).ctime)
                    && list[i] == times.sorted[list[i].ctime] && list[i].scale == scale
        }),
{
    let results = results_of(s.test, s.rows, facts, s.next);
    law_results_are_filed(s.test, s.rows, facts, s.next);
    let before = times_at(results, scale, branch);
    let times = s.scales[scale][branch];
    assert(results.contains_key(scale));
    assert(s.scales[scale] == listed_branches(results[scale]));
    assert(results[scale].contains_key(branch));
    assert(times == listed_times(before));
    assert(before.sorted.dom().finite() && before.reversed.len() == 0);
    assert(times.reversed =~= newest_first(before.sorted));
    law_newest_first(before.sorted);
    let list = times.reversed;
    assert forall|i: int| 0 <= i < list.len() implies times.sorted.contains_key(
        (#[trigger] list[i]).ctime,
    ) && list[i] == times.sorted[list[i].ctime] && list[i].scale == scale by {
        assert(times_at(results, scale, branch).sorted.contains_key(list[i].ctime));
    }
}

/// A result has the date of its commit time and the first eight bytes of its build's revision. Its
/// scale factor is the one that its build gives, or, where that is `0`, the one in the log.
pub proof fn law_result_fits_its_build(
    test: Seq<char>,
    row: BuildRowView,
    facts: Facts,
    r: TestResultView,
)
    requires
        outcome(test, row, facts) == Outcome::Result(r),
    ensures
        row.branch.len() > 0,
        commit_time_of(facts.commit) == Ok::<int, CommitTimeError>(r.ctime as int),
        utc_date(r.ctime as int) == Some(r.timestamp),
        row.revision is Some,
        byte_prefix(row.revision->0, 8) == Some(r.revision),
        scale_outcome(test, row, facts) == Ok::<int, RowError>(r.scale as int),
        row.scale == "0"@ ==> row.log_test_id is Some && scale_of(test, facts.scale_log) == Ok::<
            int,
            LogError,
        >(r.scale as int),
        row.scale != "0"@ ==> u32_of(row.scale) == Ok::<int, IntError>(r.scale as int),
        row.log_summary_id is Some,
        metric_of(test, facts.metric_log) is Ok,
        r.metric == facts.metric,
        row.build_number == Some(r.build_number),
        row.builder_id == Some(r.builder_id),
{
    lemma_commit_time_range(facts.commit);
    lemma_scale_range(test, row, facts);
}

/// Whether the build `i` has the result `r` for `branch`.
pub open spec fn gives(
    test: Seq<char>,
    rows: Seq<BuildRowView>,
    facts: Seq<Facts>,
    i: int,
    branch: Seq<char>,
    r: TestResultView,
) -> bool {
    rows[i].branch == branch && outcome(test, rows[i], facts[i]) == Outcome::Result(r)
}

/// The result of a build is in the report when no later build of the same branch has one with
/// the same scale factor and commit time.
pub proof fn law_last_result_is_reported(
    test: Seq<char>,
    rows: Seq<BuildRowView>,
    facts: Seq<Facts>,
    n: int,
    i: int,
    r: TestResultView,
)
    requires
        0 <= i < n <= rows.len(),
        gives(test, rows, facts, i, rows[i].branch, r),
        forall|j: int, later: TestResultView|
            i < j < n && #[trigger] gives(test, rows, facts, j, rows[i].branch, later)
                ==> later.scale != r.scale || later.ctime != r.ctime,
    ensures
        ({
            let sorted = times_at(
                results_of(test, rows, facts, n),
                r.scale,
                rows[i].branch,
            ).sorted;
            sorted.contains_key(r.ctime) && sorted[r.ctime] == r
        }),
    decreases n,
{
    let before = results_of(test, rows, facts, n - 1);
    if i < n - 1 {
        law_last_result_is_reported(test, rows, facts, n - 1, i, r);
    }
    match outcome(test, rows[n - 1], facts[n - 1]) {
        Outcome::Result(last) => {
            if i < n - 1 && rows[n - 1].branch == rows[i].branch {
                assert(gives(test, rows, facts, n - 1, rows[i].branch, last));
            }
            law_filed_result_is_found(
                before,
                rows[n - 1].branch,
                last,
                r.scale,
                rows[i].branch,
                r.ctime,
            );
        },
        _ => {},
    }
}

/// Whatever is in a report is the result of one of its builds.
pub proof fn law_reported_result_has_a_build(
    test: Seq<char>,
    rows: Seq<BuildRowView>,
    facts: Seq<Facts>,
    n: int,
    scale: u32,
    branch: Seq<char>,
    ctime: i64,
)
    requires
        0 <= n <= rows.len(),
        times_at(results_of(test, rows, facts, n), scale, branch).sorted.contains_key(ctime),
    ensures
        exists|i: int|
            0 <= i < n && #[trigger] gives(
                test,
                rows,
                facts,
                i,
                branch,
                times_at(results_of(test, rows, facts, n), scale, branch).sorted[ctime],
            ),
    decreases n,
{
    if n > 0 {
        let before = results_of(test, rows, facts, n - 1);
        let now = results_of(test, rows, facts, n);
        let r = times_at(now, scale, branch).sorted[ctime];
        match outcome(test, rows[n - 1], facts[n - 1]) {
            Outcome::Result(last) => {
                law_filed_result_is_found(before, rows[n - 1].branch, last, scale, branch, ctime);
                if scale == last.scale && branch == rows[n - 1].branch && ctime == last.ctime {
                    assert(gives(test, rows, facts, n - 1, branch, r));
                } else {
                    law_reported_result_has_a_build(
                        test,
                        rows,
                        facts,
                        n - 1,
                        scale,
                        branch,
                        ctime,
                    );
                }
            },
            _ => {
                law_reported_result_has_a_build(test, rows, facts, n - 1, scale, branch, ctime);
            },
        }
    }
}

/// The results of a number of builds depend on those builds alone.
proof fn lemma_same_builds(
    test: Seq<char>,
    rows: Seq<BuildRowView>,
    facts: Seq<Facts>,
    rows2: Seq<BuildRowView>,
    facts2: Seq<Facts>,
    n: int,
)
    requires
        forall|j: int| 0 <= j < n ==> #[trigger] rows[j] == rows2[j],
        forall|j: int| 0 <= j < n ==> #[trigger] facts[j] == facts2[j],
    ensures
        results_of(test, rows, facts, n) == results_of(test, rows2, facts2, n),
    decreases n,
{
    if n > 0 {
        lemma_same_builds(test, rows, facts, rows2, facts2, n - 1);
        assert(rows[n - 1] == rows2[n - 1] && facts[n - 1] == facts2[n - 1]);
    }
}

/// A build that is left out changes nothing: the results are those of the other builds.
pub proof fn law_left_out_build_changes_nothing(
    test: Seq<char>,
    rows: Seq<BuildRowView>,
    facts: Seq<Facts>,
    n: int,
    i: int,
)
    requires
        0 <= i < n <= rows.len(),
        facts.len() == rows.len(),
        outcome(test, rows[i], facts[i]) is Left,
    ensures
        results_of(test, rows, facts, n) == results_of(
            test,
            rows.remove(i),
            facts.remove(i),
            n - 1,
        ),
    decreases n,
{
    let rows2 = rows.remove(i);
    let facts2 = facts.remove(i);
    if i == n - 1 {
        lemma_same_builds(test, rows, facts, rows2, facts2, n - 1);
    } else {
        law_left_out_build_changes_nothing(test, rows, facts, n - 1, i);
        assert(rows2[n - 2] == rows[n - 1]);
        assert(facts2[n - 2] == facts[n - 1]);
    }
}

/// A build has a result when it has a branch, a revision that can be cut, a commit time with a
/// date, and all of its columns, when its scale factor is read from where it stands, and when its
/// log has a metric.
pub proof fn law_build_has_result(
    test: Seq<char>,
    row: BuildRowView,
    facts: Facts,
    revision: Seq<char>,
    r: TestResultView,
)
    requires
        row.branch.len() > 0,
        row.revision == Some(revision),
        byte_prefix(revision, 8) == Some(r.revision),
        commit_time_of(facts.commit) == Ok::<int, CommitTimeError>(r.ctime as int),
        utc_date(r.ctime as int) == Some(r.timestamp),
        row.build_number == Some(r.build_number),
        row.builder_id == Some(r.builder_id),
        row.log_summary_id is Some,
        if row.scale == "0"@ {
            row.log_test_id is Some && scale_of(test, facts.scale_log) == Ok::<int, LogError>(
                r.scale as int,
            )
        } else {
            u32_of(row.scale) == Ok::<int, IntError>(r.scale as int)
        },
        metric_of(test, facts.metric_log) is Ok,
        r.metric == facts.metric,
    ensures
        outcome(test, row, facts) == Outcome::Result(r),
{
}

/// A build is left out when it has no branch, or a revision whose commit time is no number, and
/// for no other reason.
pub proof fn law_build_is_left_out(test: Seq<char>, row: BuildRowView, facts: Facts)
    ensures
        outcome(test, row, facts) is Left <==> row.branch.len() == 0 || (row.revision is Some && (
        commit_time_of(facts.commit) matches Err(CommitTimeError::NotNumber(_)))),
{
}

/// A build that is not left out fails for the first thing that it lacks.
pub proof fn law_build_fails(
    test: Seq<char>,
    row: BuildRowView,
    facts: Facts,
    revision: Seq<char>,
    ctime: int,
)
    requires
        row.branch.len() > 0,
        row.revision == Some(revision),
        commit_time_of(facts.commit) == Ok::<int, CommitTimeError>(ctime),
    ensures
        utc_date(ctime) is None ==> outcome(test, row, facts) == Outcome::Failed(
            RowError::CommitTimeOutOfRange,
        ),
        utc_date(ctime) is Some ==> if row.build_number is None {
            outcome(test, row, facts) == Outcome::Failed(RowError::Missing(Column::BuildNumber))
        } else if row.builder_id is None {
            outcome(test, row, facts) == Outcome::Failed(RowError::Missing(Column::BuilderId))
        } else if row.log_summary_id is None {
            outcome(test, row, facts) == Outcome::Failed(RowError::Missing(Column::LogSummaryId))
        } else if row.scale == "0"@ && row.log_test_id is None {
            outcome(test, row, facts) == Outcome::Failed(RowError::Missing(Column::LogTestId))
        } else if row.scale == "0"@ && scale_of(test, facts.scale_log) is Err {
            outcome(test, row, facts) == Outcome::Failed(
                RowError::ScaleLog(scale_of(test, facts.scale_log)->Err_0),
            )
        } else if row.scale != "0"@ && u32_of(row.scale) is Err {
            outcome(test, row, facts) == Outcome::Failed(
                RowError::ScaleNotNumber(u32_of(row.scale)->Err_0),
            )
        } else if metric_of(test, facts.metric_log) is Err {
            outcome(test, row, facts) == Outcome::Failed(
                RowError::MetricLog(metric_of(test, facts.metric_log)->Err_0),
            )
        } else if byte_prefix(revision, 8) is None {
            outcome(test, row, facts) == Outcome::Failed(RowError::RevisionNotCut)
        } else {
            outcome(test, row, facts) is Result
        },
{
}

/// A build with a branch fails when it has no revision, or when its commit is not shown in UTF-8.
pub proof fn law_build_without_commit_fails(test: Seq<char>, row: BuildRowView, facts: Facts)
    requires
        row.branch.len() > 0,
    ensures
        row.revision is None <==> outcome(test, row, facts) == Outcome::Failed(
            RowError::Missing(Column::Revision),
        ),
        row.revision is Some && commit_time_of(facts.commit) == Err::<int, CommitTimeError>(
            CommitTimeError::NotUtf8,
        ) <==> outcome(test, row, facts) == Outcome::Failed(RowError::CommitNotUtf8),
{
}

/// In a finished report the result of a build stands under its scale factor, the build's branch
/// and its commit time, and in the list there, unless a later build of the branch has a result
/// with the same scale factor and commit time.
#[verifier::spinoff_prover]
pub proof fn law_build_is_in_finished_report(
    s: ReportView,
    facts: Seq<Facts>,
    i: int,
    r: TestResultView,
)
    requires
        on_course(s, facts),
        s.stage is Finished,
        0 <= i < s.rows.len(),
        gives(s.test, s.rows, facts, i, s.rows[i].branch, r),
        forall|j: int, later: TestResultView|
            i < j < s.rows.len() && #[trigger] gives(
                s.test,
                s.rows,
                facts,
                j,
                s.rows[i].branch,
                later,
            ) ==> later.scale != r.scale || later.ctime != r.ctime,
    ensures
        s.scales.contains_key(r.scale),
        s.scales[r.scale].contains_key(s.rows[i].branch),
        s.scales[r.scale][s.rows[i].branch].sorted.contains_key(r.ctime),
        s.scales[r.scale][s.rows[i].branch].sorted[r.ctime] == r,
        s.scales[r.scale][s.rows[i].branch].reversed.contains(r),
{
    let branch = s.rows[i].branch;
    let n = s.rows.len() as int;
    let results = results_of(s.test, s.rows, facts, n);
    law_last_result_is_reported(s.test, s.rows, facts, n, i, r);
    law_results_are_filed(s.test, s.rows, facts, n);
    let times = times_at(results, r.scale, branch);
    assert(times.sorted.dom().finite() && times.reversed.len() == 0);
    assert(times.sorted.contains_key(r.ctime) && times.sorted[r.ctime] == r);
    assert(results.contains_key(r.scale) && results[r.scale].contains_key(branch));
    assert(times == results[r.scale][branch]);
    assert(s.scales == listed(results));
    law_listing_keeps_all(results, r.scale, branch);
    law_listing_is_complete(results, r.scale, branch, r.ctime);
    law_finished_lists(s, facts, r.scale, branch);
    let list = s.scales[r.scale][branch].reversed;
    let at = choose|at: int| 0 <= at < list.len() && (#[trigger] list[at]).ctime == r.ctime;
    assert(list[at] == r);
}

/// In a finished report whatever stands under a scale factor, a branch and a commit time is the
/// result of a build of that branch, with that scale factor and commit time.
pub proof fn law_finished_report_has_builds(
    s: ReportView,
    facts: Seq<Facts>,
    scale: u32,
    branch: Seq<char>,
    ctime: i64,
)
    requires
        on_course(s, facts),
        s.stage is Finished,
        s.scales.contains_key(scale),
        s.scales[scale].contains_key(branch),
        s.scales[scale][branch].sorted.contains_key(ctime),
    ensures
        s.scales[scale][branch].sorted[ctime].scale == scale,
        s.scales[scale][branch].sorted[ctime].ctime == ctime,
        exists|i: int|
            0 <= i < s.rows.len() && #[trigger] gives(
                s.test,
                s.rows,
                facts,
                i,
                branch,
                s.scales[scale][branch].sorted[ctime],
            ),
{
    let n = s.rows.len() as int;
    let results = results_of(s.test, s.rows, facts, n);
    law_listing_keeps_all(results, scale, branch);
    law_results_are_filed(s.test, s.rows, facts, n);
    assert(times_at(results, scale, branch).sorted.contains_key(ctime));
    law_reported_result_has_a_build(s.test, s.rows, facts, n, scale, branch, ctime);
}

/// A report on builds of which none fails does not fail, and a report on builds of which one fails
/// does not finish.
pub proof fn law_how_a_report_ends(s: ReportView, facts: Seq<Facts>)
    requires
        on_course(s, facts),
    ensures
        s.stage is Failed ==> exists|i: int|
            0 <= i < s.rows.len() && #[trigger] outcome(s.test, s.rows[i], facts[i]) is Failed,
        s.stage is Finished ==> forall|i: int|
            0 <= i < s.rows.len() ==> !(#[trigger] outcome(s.test, s.rows[i], facts[i]) is Failed),
{
    if s.stage is Failed {
        assert(outcome(s.test, s.rows[s.next], facts[s.next]) is Failed);
    }
}

} // verus!
