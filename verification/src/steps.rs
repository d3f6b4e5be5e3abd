//! What each step of a report does.
use vstd::prelude::*;

use crate::date::utc_date;
use crate::laws::{lemma_scale_of_range, lemma_u32_range};
use crate::logs::{metric_of, scale_of};
use crate::report::{
    commit_time_of, step_of, ActionView, Column, CommitTimeError, KnownView, ReplyView, ReportView,
    RowError, StageView,
};
use crate::results::{
    law_filing_changes_one_place, law_listing_is_complete, law_listing_keeps_all, TestResultView,
};
use crate::text::{byte_prefix, int_text, u32_of, IntError};

verus! {

/// A step changes neither the builds nor the test nor the address of the build server. It goes on
/// by one build when that build is left out or its result is filed, and by none otherwise. It
/// touches the results only when it files one, or at the end.
pub proof fn law_step_frame(s: ReportView, reply: ReplyView)
    ensures
        ({
            let (t, action) = step_of(s, reply);
            &&& t.buildbot_url == s.buildbot_url
            &&& t.test == s.test
            &&& t.rows == s.rows
            &&& t.next == (if action is Skipped || action is Unreadable || action is Added {
                s.next + 1
            } else {
                s.next
            })
            &&& action is Skipped || action is Unreadable || action is Added ==> t.stage is Ready
            &&& !(action is Added) && !(action is Finished) ==> t.scales == s.scales
            &&& action is Finished <==> t.stage is Finished && !(s.stage is Finished)
            &&& action matches ActionView::Failed(e) ==> t.stage == StageView::Failed(e)
            &&& action is ShowCommit ==> t.stage is Commit
            &&& action is FormatMetric ==> t.stage is Metric
            &&& action is FetchLog ==> t.stage is ScaleLog || t.stage is MetricLog
        }),
{
}

/// A report that is told something else than it waits for does not change.
pub proof fn law_other_replies_are_not_awaited(s: ReportView, reply: ReplyView)
    requires
        !(s.stage is Ready && reply is Next),
        !(s.stage is Commit && reply is Commit),
        !(s.stage is ScaleLog && reply is Log),
        !(s.stage is MetricLog && reply is Log),
        !(s.stage is Metric && reply is Metric),
    ensures
        step_of(s, reply) == (s, ActionView::NotAwaited),
{
}

/// A report that is told what it waits for takes it.
pub proof fn law_awaited_kinds_are_taken(s: ReportView, reply: ReplyView)
    requires
        (s.stage is Ready && reply is Next) || (s.stage is Commit && reply is Commit) || (
        s.stage is ScaleLog && reply is Log) || (s.stage is MetricLog && reply is Log) || (
        s.stage is Metric && reply is Metric),
    ensures
        !(step_of(s, reply).1 is NotAwaited),
{
}

/// A build that has no branch is left out. Of any other, the commit of its own revision is asked
/// for; without a revision there is no report.
pub proof fn law_next_build(s: ReportView)
    requires
        s.stage is Ready,
        0 <= s.next < s.rows.len(),
    ensures
        ({
            let (t, action) = step_of(s, ReplyView::Next);
            let row = s.rows[s.next];
            &&& action is Skipped <==> row.branch.len() == 0
            &&& row.branch.len() > 0 ==> match row.revision {
                Some(revision) => action == ActionView::ShowCommit(revision) && t.stage is Commit,
                None => action == ActionView::Failed(RowError::Missing(Column::Revision)),
            }
        }),
{
}

/// Whatever commit is asked for is that of the revision of the build at hand, and the build has a
/// branch.
pub proof fn law_commit_of_own_revision(s: ReportView, reply: ReplyView, revision: Seq<char>)
    requires
        step_of(s, reply).1 == ActionView::ShowCommit(revision),
    ensures
        s.stage is Ready,
        s.next != s.rows.len(),
        s.rows[s.next].revision == Some(revision),
        s.rows[s.next].branch.len() > 0,
{
}

/// A report ends behind its last build and nowhere else. It then has the scale factors, the
/// branches and the results that it had.
pub proof fn law_end_of_report(s: ReportView, reply: ReplyView, scale: u32, branch: Seq<char>)
    ensures
        step_of(s, reply).1 is Finished <==> s.stage is Ready && reply is Next && s.next
            == s.rows.len(),
        step_of(s, reply).1 is Finished ==> {
            let t = step_of(s, reply).0;
            &&& t.stage is Finished
            &&& t.scales.contains_key(scale) <==> s.scales.contains_key(scale)
            &&& s.scales.contains_key(scale) ==> (t.scales[scale].contains_key(branch)
                <==> s.scales[scale].contains_key(branch))
            &&& s.scales.contains_key(scale) && s.scales[scale].contains_key(branch)
                ==> t.scales[scale][branch].sorted == s.scales[scale][branch].sorted
        },
{
    law_listing_keeps_all(s.scales, scale, branch);
}

/// At the end the list of a branch gets one entry for each of its results, the result itself with
/// the time that it is filed under, and a later time stands before an earlier one.
pub proof fn law_lists_at_end(s: ReportView, scale: u32, branch: Seq<char>, ctime: i64)
    requires
        s.stage is Ready,
        s.next == s.rows.len(),
        s.scales.contains_key(scale),
        s.scales[scale].contains_key(branch),
        s.scales[scale][branch].sorted.dom().finite(),
        s.scales[scale][branch].reversed.len() == 0,
    ensures
        ({
            let filed = s.scales[scale][branch].sorted;
            let list = step_of(s, ReplyView::Next).0.scales[scale][branch].reversed;
            &&& list.len() == filed.dom().len()
            &&& forall|i: int|
                0 <= i < list.len() ==> filed.contains_key((#[trigger] list[i]).ctime) && list[i]
                    == (TestResultView { ctime: list[i].ctime, ..filed[list[i].ctime] })
            &&& filed.contains_key(ctime) ==> exists|i: int|
                0 <= i < list.len() && (#[trigger] list[i]).ctime == ctime
            &&& forall|i: int, j: int|
                0 <= i < j < list.len() ==> (#[trigger] list[i]).ctime > (#[trigger] list[j]).ctime
        }),
{
    law_listing_is_complete(s.scales, scale, branch, ctime);
}

/// A commit that is shown as something else than UTF-8 ends the report; one whose time is no
/// number, and no other, leaves its build out, with the reason.
pub proof fn law_unread_commit(s: ReportView, shown: Seq<u8>, e: IntError)
    requires
        s.stage is Commit,
    ensures
        ({
            let action = step_of(s, ReplyView::Commit(shown)).1;
            &&& commit_time_of(shown) == Err::<int, CommitTimeError>(CommitTimeError::NotUtf8)
                <==> action == ActionView::Failed(RowError::CommitNotUtf8)
            &&& commit_time_of(shown) == Err::<int, CommitTimeError>(CommitTimeError::NotNumber(e))
                <==> action == ActionView::Unreadable(e)
        }),
{
}

/// Of a build whose commit time has no date there is no report, nor of one that lacks its number,
/// its builder or its summary log.
pub proof fn law_missing_column(s: ReportView, shown: Seq<u8>, ctime: i64)
    requires
        s.stage is Commit,
        commit_time_of(shown) == Ok::<int, CommitTimeError>(ctime as int),
    ensures
        ({
            let action = step_of(s, ReplyView::Commit(shown)).1;
            let row = s.rows[s.next];
            &&& utc_date(ctime as int) is None <==> action == ActionView::Failed(
                RowError::CommitTimeOutOfRange,
            )
            &&& utc_date(ctime as int) is Some ==> {
                &&& row.build_number is None <==> action == ActionView::Failed(
                    RowError::Missing(Column::BuildNumber),
                )
                &&& row.build_number is Some && row.builder_id is None <==> action
                    == ActionView::Failed(RowError::Missing(Column::BuilderId))
                &&& row.build_number is Some && row.builder_id is Some && row.log_summary_id is None
                    <==> action == ActionView::Failed(RowError::Missing(Column::LogSummaryId))
            }
        }),
{
}

/// A build with the scale factor `0` has it in a log, which is asked for: the test's own for dbt2
/// and dbt3, the summary for any other test. Without a log of the test there is no report. The
/// commit time, its date and the build's own columns are kept.
pub proof fn law_scale_log_is_asked_for(
    s: ReportView,
    shown: Seq<u8>,
    ctime: i64,
    date: Seq<char>,
    number: i32,
    builder: i32,
    summary: i32,
)
    requires
        s.stage is Commit,
        commit_time_of(shown) == Ok::<int, CommitTimeError>(ctime as int),
        utc_date(ctime as int) == Some(date),
        s.rows[s.next].build_number == Some(number),
        s.rows[s.next].builder_id == Some(builder),
        s.rows[s.next].log_summary_id == Some(summary),
        s.rows[s.next].scale == "0"@,
    ensures
        ({
            let (t, action) = step_of(s, ReplyView::Commit(shown));
            match s.rows[s.next].log_test_id {
                None => action == ActionView::Failed(RowError::Missing(Column::LogTestId)),
                Some(own) => {
                    let log = if s.test == "dbt2"@ || s.test == "dbt3"@ {
                        own
                    } else {
                        summary
                    };
                    &&& action == ActionView::FetchLog(
                        s.buildbot_url + "/api/v2/logs/"@ + int_text(log as int) + "/raw_inline"@,
                    )
                    &&& t.stage == StageView::ScaleLog(
                        KnownView {
                            ctime,
                            timestamp: date,
                            build_number: number,
                            builder_id: builder,
                            log_summary_id: summary,
                        },
                    )
                },
            }
        }),
{
}

/// A build with another scale factor than `0` gives it itself, and its summary log is asked for
/// at once. A scale factor that is no number ends the report.
pub proof fn law_own_scale_is_read(
    s: ReportView,
    shown: Seq<u8>,
    ctime: i64,
    date: Seq<char>,
    number: i32,
    builder: i32,
    summary: i32,
)
    requires
        s.stage is Commit,
        commit_time_of(shown) == Ok::<int, CommitTimeError>(ctime as int),
        utc_date(ctime as int) == Some(date),
        s.rows[s.next].build_number == Some(number),
        s.rows[s.next].builder_id == Some(builder),
        s.rows[s.next].log_summary_id == Some(summary),
        s.rows[s.next].scale != "0"@,
    ensures
        ({
            let (t, action) = step_of(s, ReplyView::Commit(shown));
            match u32_of(s.rows[s.next].scale) {
                Err(e) => action == ActionView::Failed(RowError::ScaleNotNumber(e)),
                Ok(scale) => {
                    &&& action == ActionView::FetchLog(
                        s.buildbot_url + "/api/v2/logs/"@ + int_text(summary as int)
                            + "/raw_inline"@,
                    )
                    &&& 0 <= scale <= u32::MAX
                    &&& t.stage == StageView::MetricLog(
                        KnownView {
                            ctime,
                            timestamp: date,
                            build_number: number,
                            builder_id: builder,
                            log_summary_id: summary,
                        },
                        scale as u32,
                    )
                },
            }
        }),
{
    lemma_u32_range(s.rows[s.next].scale);
}

/// The scale factor in the log is taken, and the summary log is asked for; a log without one ends
/// the report.
pub proof fn law_scale_log_is_read(s: ReportView, known: KnownView, log: Seq<u8>)
    requires
        s.stage == StageView::ScaleLog(known),
    ensures
        ({
            let (t, action) = step_of(s, ReplyView::Log(log));
            match scale_of(s.test, log) {
                Err(e) => action == ActionView::Failed(RowError::ScaleLog(e)),
                Ok(scale) => {
                    &&& action == ActionView::FetchLog(
                        s.buildbot_url + "/api/v2/logs/"@ + int_text(known.log_summary_id as int)
                            + "/raw_inline"@,
                    )
                    &&& 0 <= scale <= u32::MAX
                    &&& t.stage == StageView::MetricLog(known, scale as u32)
                },
            }
        }),
{
    lemma_scale_of_range(s.test, log);
}

/// The metric in the summary log is handed over to be formatted exactly as it is written there;
/// a log without one ends the report.
pub proof fn law_metric_log_is_read(s: ReportView, known: KnownView, scale: u32, log: Seq<u8>)
    requires
        s.stage == StageView::MetricLog(known, scale),
    ensures
        ({
            let (t, action) = step_of(s, ReplyView::Log(log));
            match metric_of(s.test, log) {
                Err(e) => action == ActionView::Failed(RowError::MetricLog(e)),
                Ok(number) => action == ActionView::FormatMetric(number) && t.stage
                    == StageView::Metric(known, scale),
            }
        }),
{
}

/// The result of a build holds the formatted metric, the first eight bytes of the build's
/// revision, and what is known of the build. It is filed under its scale factor, the build's
/// branch and its commit time; nothing that stands elsewhere changes.
pub proof fn law_metric_makes_result(
    s: ReportView,
    known: KnownView,
    scale: u32,
    metric: Seq<char>,
    revision: Seq<char>,
    short: Seq<char>,
    at: u32,
    other: Seq<char>,
    ctime: i64,
)
    requires
        s.stage == StageView::Metric(known, scale),
        s.rows[s.next].revision == Some(revision),
        byte_prefix(revision, 8) == Some(short),
    ensures
        ({
            let (t, action) = step_of(s, ReplyView::Metric(metric));
            let branch = s.rows[s.next].branch;
            let had = s.scales.contains_key(scale) && s.scales[scale].contains_key(branch);
            &&& action is Added
            &&& t.scales.contains_key(scale)
            &&& t.scales[scale].contains_key(branch)
            &&& t.scales[scale][branch].sorted.contains_key(known.ctime)
            &&& t.scales[scale][branch].sorted[known.ctime] == (TestResultView {
                build_number: known.build_number,
                builder_id: known.builder_id,
                ctime: known.ctime,
                metric,
                revision: short,
                scale,
                timestamp: known.timestamp,
            })
            &&& t.scales.contains_key(at) <==> at == scale || s.scales.contains_key(at)
            &&& at != scale && s.scales.contains_key(at) ==> t.scales[at] == s.scales[at]
            &&& t.scales[scale].contains_key(other) <==> other == branch || (
            s.scales.contains_key(scale) && s.scales[scale].contains_key(other))
            &&& other != branch && s.scales.contains_key(scale) && s.scales[scale].contains_key(
                other,
            ) ==> t.scales[scale][other] == s.scales[scale][other]
            &&& t.scales[scale][branch].sorted.contains_key(ctime) <==> ctime == known.ctime || (had
                && s.scales[scale][branch].sorted.contains_key(ctime))
            &&& ctime != known.ctime && had && s.scales[scale][branch].sorted.contains_key(ctime)
                ==> t.scales[scale][branch].sorted[ctime] == s.scales[scale][branch].sorted[ctime]
            &&& had ==> t.scales[scale][branch].reversed == s.scales[scale][branch].reversed
            &&& !had ==> t.scales[scale][branch].reversed.len() == 0
        }),
{
    let result = TestResultView {
        build_number: known.build_number,
        builder_id: known.builder_id,
        ctime: known.ctime,
        metric,
        revision: short,
        scale,
        timestamp: known.timestamp,
    };
    law_filing_changes_one_place(s.scales, s.rows[s.next].branch, result, at, other, ctime);
}

/// A build whose revision cannot be cut to eight bytes, or is missing, has no result.
pub proof fn law_uncut_revision(s: ReportView, known: KnownView, scale: u32, metric: Seq<char>)
    requires
        s.stage == StageView::Metric(known, scale),
    ensures
        ({
            let action = step_of(s, ReplyView::Metric(metric)).1;
            match s.rows[s.next].revision {
                None => action == ActionView::Failed(RowError::Missing(Column::Revision)),
                Some(revision) => byte_prefix(revision, 8) is None <==> action
                    == ActionView::Failed(RowError::RevisionNotCut),
            }
        }),
{
}

} // verus!
