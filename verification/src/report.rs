//! The report on a test at one plant: it goes through the builds, asks for what it needs to know
//! of each, and files the results.
use vstd::prelude::*;
use vstd::utf8::*;

use crate::date::{commit_date, utc_date};
use crate::logs::{log_url, log_url_of, metric_of, scale_of, test_metric, test_scale, LogError};
use crate::results::{
    insert_result, list_results, listed, with_result, ResultsByBranchView, ResultsByScale,
    ResultsByScaleView, TestResult, TestResultView,
};
use crate::sorted::SortedMap;
use crate::text::{
    byte_prefix, i64_of, int_text, is_white_space, law_i64_text_is_read, law_strip,
    lemma_int_text_ends, parse_i64, parse_u32, prefix, same_text, strip, text_from_utf8, trim,
    trim_edges, u32_of, utf8_of, Edge, IntError,
};

verus! {

/// A build of a test, as the database gives it. What the database can leave out is optional.
#[derive(Debug)]
pub struct BuildRow {
    pub branch: String,
    pub revision: Option<String>,
    pub scale: String,
    pub builder_id: Option<i32>,
    pub build_number: Option<i32>,
    pub log_summary_id: Option<i32>,
    pub log_test_id: Option<i32>,
}

#[verifier::ext_equal]
pub struct BuildRowView {
    pub branch: Seq<char>,
    pub revision: Option<Seq<char>>,
    pub scale: Seq<char>,
    pub builder_id: Option<i32>,
    pub build_number: Option<i32>,
    pub log_summary_id: Option<i32>,
    pub log_test_id: Option<i32>,
}

impl View for BuildRow {
    type V = BuildRowView;

    open spec fn view(&self) -> BuildRowView {
        BuildRowView {
            branch: self.branch@,
            revision: match self.revision {
                Some(r) => Some(r@),
                None => None,
            },
            scale: self.scale@,
            builder_id: self.builder_id,
            build_number: self.build_number,
            log_summary_id: self.log_summary_id,
            log_test_id: self.log_test_id,
        }
    }
}

/// A column that the database can leave out.
#[derive(Clone, Copy, Debug, PartialEq, Eq, Structural)]
pub enum Column {
    Revision,
    BuildNumber,
    BuilderId,
    LogSummaryId,
    LogTestId,
}

/// Why a build has no result, so that there can be no report.
#[derive(Clone, Copy, Debug, PartialEq, Eq, Structural)]
pub enum RowError {
    /// A column that is needed is left out.
    Missing(Column),
    /// What was shown of the commit is not UTF-8.
    CommitNotUtf8,
    /// The commit time has no date.
    CommitTimeOutOfRange,
    /// The scale factor of the build is no number.
    ScaleNotNumber(IntError),
    /// The log that should hold the scale factor does not.
    ScaleLog(LogError),
    /// The log that should hold the metric does not.
    MetricLog(LogError),
    /// The revision cannot be cut to eight bytes.
    RevisionNotCut,
}

/// Why no commit time can be read.
#[derive(Clone, Copy, Debug, PartialEq, Eq, Structural)]
pub enum CommitTimeError {
    NotUtf8,
    NotNumber(IntError),
}

/// The commit time in what was shown of a commit: a number, with quotes around it and white
/// space around those.
pub open spec fn commit_time_of(shown: Seq<u8>) -> Result<int, CommitTimeError> {
    match utf8_of(shown) {
        None => Err(CommitTimeError::NotUtf8),
        Some(text) => match i64_of(strip(strip(text, Edge::WhiteSpace), Edge::Quote)) {
            Err(e) => Err(CommitTimeError::NotNumber(e)),
            Ok(n) => Ok(n),
        },
    }
}

/// Reads the commit time in what was shown of a commit.
pub fn commit_time(shown: &[u8]) -> (r: Result<i64, CommitTimeError>)
    ensures
        commit_time_of(shown@) == (match r {
            Ok(n) => Ok::<int, CommitTimeError>(n as int),
            Err(e) => Err(e),
        }),
{
    match text_from_utf8(shown) {
        None => Err(CommitTimeError::NotUtf8),
        Some(text) => {
            let trimmed = trim(text.as_str());
            let number = trim_edges(trimmed.as_str(), Edge::Quote);
            match parse_i64(number.as_str()) {
                Err(e) => Err(CommitTimeError::NotNumber(e)),
                Ok(n) => Ok(n),
            }
        },
    }
}

/// What is shown of a commit is read as the number in it, without the quotes around that and the
/// white space around those.
pub proof fn law_shown_number_is_read(
    shown: Seq<u8>,
    front: Seq<char>,
    opening: Seq<char>,
    number: Seq<char>,
    closing: Seq<char>,
    back: Seq<char>,
)
    requires
        utf8_of(shown) == Some(front + (opening + number + closing) + back),
        forall|i: int| 0 <= i < front.len() ==> is_white_space(#[trigger] front[i]),
        forall|i: int| 0 <= i < opening.len() ==> #[trigger] opening[i] == '"',
        forall|i: int| 0 <= i < closing.len() ==> #[trigger] closing[i] == '"',
        forall|i: int| 0 <= i < back.len() ==> is_white_space(#[trigger] back[i]),
        number.len() > 0 ==> number.first() != '"' && number.last() != '"',
        (opening + number + closing).len() > 0 ==> !is_white_space((opening + number + closing).first())
            && !is_white_space((opening + number + closing).last()),
    ensures
        commit_time_of(shown) == (match i64_of(number) {
            Ok(n) => Ok::<int, CommitTimeError>(n),
            Err(e) => Err(CommitTimeError::NotNumber(e)),
        }),
{
    law_strip(front, opening + number + closing, back, Edge::WhiteSpace);
    law_strip(opening, number, closing, Edge::Quote);
}

/// A commit time that is shown in quotes, with white space around it, is read.
pub proof fn law_shown_commit_time_is_read(
    shown: Seq<u8>,
    front: Seq<char>,
    ctime: int,
    back: Seq<char>,
)
    requires
        i64::MIN <= ctime <= i64::MAX,
        utf8_of(shown) == Some(front + (seq!['"'] + int_text(ctime) + seq!['"']) + back),
        forall|i: int| 0 <= i < front.len() ==> is_white_space(#[trigger] front[i]),
        forall|i: int| 0 <= i < back.len() ==> is_white_space(#[trigger] back[i]),
    ensures
        commit_time_of(shown) == Ok::<int, CommitTimeError>(ctime),
{
    lemma_int_text_ends(ctime);
    law_shown_number_is_read(shown, front, seq!['"'], int_text(ctime), seq!['"'], back);
    law_i64_text_is_read(ctime);
}

/// The log that holds the scale factor: that of the test itself or that of its summary.
pub open spec fn scale_log_of(test: Seq<char>, log_test_id: i32, log_summary_id: i32) -> i32 {
    if test == "dbt2"@ || test == "dbt3"@ {
        log_test_id
    } else {
        log_summary_id
    }
}

/// The log that holds the scale factor: that of the test itself or that of its summary.
pub fn scale_log(test: &str, log_test_id: i32, log_summary_id: i32) -> (r: i32)
    ensures
        r == scale_log_of(test@, log_test_id, log_summary_id),
        test@ == "dbt2"@ || test@ == "dbt3"@ ==> r == log_test_id,
        test@ != "dbt2"@ && test@ != "dbt3"@ ==> r == log_summary_id,
{
    if same_text(test, "dbt2") || same_text(test, "dbt3") {
        log_test_id
    } else {
        log_summary_id
    }
}

/// What is known of a build once its commit time is.
#[derive(Debug)]
pub struct Known {
    pub ctime: i64,
    pub timestamp: String,
    pub build_number: i32,
    pub builder_id: i32,
    pub log_summary_id: i32,
}

#[verifier::ext_equal]
pub struct KnownView {
    pub ctime: i64,
    pub timestamp: Seq<char>,
    pub build_number: i32,
    pub builder_id: i32,
    pub log_summary_id: i32,
}

impl View for Known {
    type V = KnownView;

    open spec fn view(&self) -> KnownView {
        KnownView {
            ctime: self.ctime,
            timestamp: self.timestamp@,
            build_number: self.build_number,
            builder_id: self.builder_id,
            log_summary_id: self.log_summary_id,
        }
    }
}

/// What the report waits for.
#[derive(Debug)]
pub enum Stage {
    /// The word to go on to the next build.
    Ready,
    /// The commit time of the build's revision.
    Commit,
    /// The log with the scale factor.
    ScaleLog(Known),
    /// The log with the metric; the scale factor is known.
    MetricLog(Known, u32),
    /// The metric's final form.
    Metric(Known, u32),
    /// Nothing: all builds are done.
    Finished,
    /// Nothing: a build has no result.
    Failed(RowError),
}

#[verifier::ext_equal]
pub enum StageView {
    Ready,
    Commit,
    ScaleLog(KnownView),
    MetricLog(KnownView, u32),
    Metric(KnownView, u32),
    Finished,
    Failed(RowError),
}

impl View for Stage {
    type V = StageView;

    open spec fn view(&self) -> StageView {
        match self {
            Stage::Ready => StageView::Ready,
            Stage::Commit => StageView::Commit,
            Stage::ScaleLog(k) => StageView::ScaleLog(k@),
            Stage::MetricLog(k, n) => StageView::MetricLog(k@, *n),
            Stage::Metric(k, n) => StageView::Metric(k@, *n),
            Stage::Finished => StageView::Finished,
            Stage::Failed(e) => StageView::Failed(*e),
        }
    }
}

/// What the report is told.
#[derive(Debug)]
pub enum Reply {
    /// Go on to the next build.
    Next,
    /// What was shown of the commit.
    Commit(Vec<u8>),
    /// The text of the log.
    Log(Vec<u8>),
    /// The metric's final form.
    Metric(String),
}

#[verifier::ext_equal]
pub enum ReplyView {
    Next,
    Commit(Seq<u8>),
    Log(Seq<u8>),
    Metric(Seq<char>),
}

impl View for Reply {
    type V = ReplyView;

    open spec fn view(&self) -> ReplyView {
        match self {
            Reply::Next => ReplyView::Next,
            Reply::Commit(b) => ReplyView::Commit(b@),
            Reply::Log(b) => ReplyView::Log(b@),
            Reply::Metric(t) => ReplyView::Metric(t@),
        }
    }
}

/// What the report asks for or has done.
#[derive(Debug)]
pub enum Action {
    /// Show the commit time of this revision.
    ShowCommit(String),
    /// Fetch the log at this address.
    FetchLog(String),
    /// Give this metric its final form.
    FormatMetric(String),
    /// The build has no branch and is left out.
    Skipped,
    /// The build's commit time cannot be read, and the build is left out.
    Unreadable(IntError),
    /// The build's result is filed.
    Added,
    /// All builds are done.
    Finished,
    /// The build has no result.
    Failed(RowError),
    /// What was told is not what the report waits for; nothing has changed.
    NotAwaited,
}

#[verifier::ext_equal]
pub enum ActionView {
    ShowCommit(Seq<char>),
    FetchLog(Seq<char>),
    FormatMetric(Seq<char>),
    Skipped,
    Unreadable(IntError),
    Added,
    Finished,
    Failed(RowError),
    NotAwaited,
}

impl View for Action {
    type V = ActionView;

    open spec fn view(&self) -> ActionView {
        match self {
            Action::ShowCommit(t) => ActionView::ShowCommit(t@),
            Action::FetchLog(t) => ActionView::FetchLog(t@),
            Action::FormatMetric(t) => ActionView::FormatMetric(t@),
            Action::Skipped => ActionView::Skipped,
            Action::Unreadable(e) => ActionView::Unreadable(*e),
            Action::Added => ActionView::Added,
            Action::Finished => ActionView::Finished,
            Action::Failed(e) => ActionView::Failed(*e),
            Action::NotAwaited => ActionView::NotAwaited,
        }
    }
}

/// What becomes of a build at one step.
#[derive(Debug)]
pub enum Move {
    /// Something has to be known first.
    Ask(Stage, Action),
    /// The build is left out.
    Leave(Action),
    /// The build has this result.
    Add(TestResult),
    /// The build has no result.
    Fail(RowError),
}

pub enum MoveView {
    Ask(StageView, ActionView),
    Leave(ActionView),
    Add(TestResultView),
    Fail(RowError),
}

impl View for Move {
    type V = MoveView;

    open spec fn view(&self) -> MoveView {
        match self {
            Move::Ask(s, a) => MoveView::Ask(s@, a@),
            Move::Leave(a) => MoveView::Leave(a@),
            Move::Add(r) => MoveView::Add(r@),
            Move::Fail(e) => MoveView::Fail(*e),
        }
    }
}

/// A build without a branch is left out; of any other the commit has to be shown.
pub open spec fn when_started(row: BuildRowView) -> MoveView {
    if row.branch.len() == 0 {
        MoveView::Leave(ActionView::Skipped)
    } else {
        match row.revision {
            None => MoveView::Fail(RowError::Missing(Column::Revision)),
            Some(r) => MoveView::Ask(StageView::Commit, ActionView::ShowCommit(r)),
        }
    }
}

/// What is known of a build with this commit time and date.
pub open spec fn known_of(row: BuildRowView, ctime: i64, timestamp: Seq<char>) -> Result<
    KnownView,
    RowError,
> {
    if row.build_number is None {
        Err(RowError::Missing(Column::BuildNumber))
    } else if row.builder_id is None {
        Err(RowError::Missing(Column::BuilderId))
    } else if row.log_summary_id is None {
        Err(RowError::Missing(Column::LogSummaryId))
    } else {
        Ok(
            KnownView {
                ctime,
                timestamp,
                build_number: row.build_number->0,
                builder_id: row.builder_id->0,
                log_summary_id: row.log_summary_id->0,
            },
        )
    }
}

/// A build that gives its scale factor as `0` has it in a log.
pub open spec fn scale_in_log(row: BuildRowView) -> bool {
    row.scale == "0"@
}

/// The next thing to know of a build is its scale factor, or, where the build gives that itself,
/// its metric.
pub open spec fn when_known(
    url: Seq<char>,
    test: Seq<char>,
    row: BuildRowView,
    known: KnownView,
) -> MoveView {
    if scale_in_log(row) {
        match row.log_test_id {
            None => MoveView::Fail(RowError::Missing(Column::LogTestId)),
            Some(id) => MoveView::Ask(
                StageView::ScaleLog(known),
                ActionView::FetchLog(
                    log_url_of(url, scale_log_of(test, id, known.log_summary_id) as int),
                ),
            ),
        }
    } else {
        match u32_of(row.scale) {
            Err(e) => MoveView::Fail(RowError::ScaleNotNumber(e)),
            Ok(n) => when_scaled(url, known, n),
        }
    }
}

/// Once the scale factor is known, the summary log is due.
pub open spec fn when_scaled(url: Seq<char>, known: KnownView, scale: int) -> MoveView {
    MoveView::Ask(
        StageView::MetricLog(known, scale as u32),
        ActionView::FetchLog(log_url_of(url, known.log_summary_id as int)),
    )
}

/// A build whose commit time is no number is left out.
pub open spec fn when_shown(
    url: Seq<char>,
    test: Seq<char>,
    row: BuildRowView,
    shown: Seq<u8>,
) -> MoveView {
    match commit_time_of(shown) {
        Err(CommitTimeError::NotUtf8) => MoveView::Fail(RowError::CommitNotUtf8),
        Err(CommitTimeError::NotNumber(e)) => MoveView::Leave(ActionView::Unreadable(e)),
        Ok(ctime) => match utc_date(ctime) {
            None => MoveView::Fail(RowError::CommitTimeOutOfRange),
            Some(date) => match known_of(row, ctime as i64, date) {
                Err(e) => MoveView::Fail(e),
                Ok(known) => when_known(url, test, row, known),
            },
        },
    }
}

pub open spec fn when_scale_fetched(
    url: Seq<char>,
    test: Seq<char>,
    known: KnownView,
    log: Seq<u8>,
) -> MoveView {
    match scale_of(test, log) {
        Err(e) => MoveView::Fail(RowError::ScaleLog(e)),
        Ok(n) => when_scaled(url, known, n),
    }
}

pub open spec fn when_metric_fetched(
    test: Seq<char>,
    known: KnownView,
    scale: u32,
    log: Seq<u8>,
) -> MoveView {
    match metric_of(test, log) {
        Err(e) => MoveView::Fail(RowError::MetricLog(e)),
        Ok(number) => MoveView::Ask(
            StageView::Metric(known, scale),
            ActionView::FormatMetric(number),
        ),
    }
}

/// The result of a build, of which everything is known.
pub open spec fn when_formatted(
    revision: Option<Seq<char>>,
    known: KnownView,
    scale: u32,
    metric: Seq<char>,
) -> MoveView {
    match revision {
        None => MoveView::Fail(RowError::Missing(Column::Revision)),
        Some(revision) => match byte_prefix(revision, 8) {
            None => MoveView::Fail(RowError::RevisionNotCut),
            Some(short) => MoveView::Add(
                TestResultView {
                    build_number: known.build_number,
                    builder_id: known.builder_id,
                    ctime: known.ctime,
                    metric,
                    revision: short,
                    scale,
                    timestamp: known.timestamp,
                },
            ),
        },
    }
}

fn start_row(row: &BuildRow) -> (r: Move)
    ensures
        r@ == when_started(row@),
{
    if row.branch.as_str().is_empty() {
        Move::Leave(Action::Skipped)
    } else {
        match &row.revision {
            None => Move::Fail(RowError::Missing(Column::Revision)),
            Some(revision) => Move::Ask(Stage::Commit, Action::ShowCommit(revision.clone())),
        }
    }
}

fn ask_metric(url: &str, known: Known, scale: u32) -> (r: Move)
    ensures
        r@ == when_scaled(url@, known@, scale as int),
{
    let address = log_url(url, known.log_summary_id);
    Move::Ask(Stage::MetricLog(known, scale), Action::FetchLog(address))
}

fn ask_scale(url: &str, test: &str, row: &BuildRow, known: Known) -> (r: Move)
    ensures
        r@ == when_known(url@, test@, row@, known@),
{
    if same_text(row.scale.as_str(), "0") {
        match row.log_test_id {
            None => Move::Fail(RowError::Missing(Column::LogTestId)),
            Some(id) => {
                let address = log_url(url, scale_log(test, id, known.log_summary_id));
                Move::Ask(Stage::ScaleLog(known), Action::FetchLog(address))
            },
        }
    } else {
        match parse_u32(row.scale.as_str()) {
            Err(e) => Move::Fail(RowError::ScaleNotNumber(e)),
            Ok(n) => ask_metric(url, known, n),
        }
    }
}

fn read_commit(url: &str, test: &str, row: &BuildRow, shown: &[u8]) -> (r: Move)
    ensures
        r@ == when_shown(url@, test@, row@, shown@),
{
    let ctime: i64 = match commit_time(shown) {
        Err(CommitTimeError::NotUtf8) => {
            return Move::Fail(RowError::CommitNotUtf8);
        },
        Err(CommitTimeError::NotNumber(e)) => {
            return Move::Leave(Action::Unreadable(e));
        },
        Ok(n) => n,
    };
    let timestamp = match commit_date(ctime) {
        None => {
            return Move::Fail(RowError::CommitTimeOutOfRange);
        },
        Some(date) => date,
    };
    let build_number: i32 = match row.build_number {
        None => {
            return Move::Fail(RowError::Missing(Column::BuildNumber));
        },
        Some(n) => n,
    };
    let builder_id: i32 = match row.builder_id {
        None => {
            return Move::Fail(RowError::Missing(Column::BuilderId));
        },
        Some(n) => n,
    };
    let log_summary_id: i32 = match row.log_summary_id {
        None => {
            return Move::Fail(RowError::Missing(Column::LogSummaryId));
        },
        Some(n) => n,
    };
    ask_scale(url, test, row, Known { ctime, timestamp, build_number, builder_id, log_summary_id })
}

fn read_scale(url: &str, test: &str, known: Known, log: &[u8]) -> (r: Move)
    ensures
        r@ == when_scale_fetched(url@, test@, known@, log@),
{
    match test_scale(test, log) {
        Err(e) => Move::Fail(RowError::ScaleLog(e)),
        Ok(n) => ask_metric(url, known, n),
    }
}

fn read_metric(test: &str, known: Known, scale: u32, log: &[u8]) -> (r: Move)
    ensures
        r@ == when_metric_fetched(test@, known@, scale, log@),
{
    match test_metric(test, log) {
        Err(e) => Move::Fail(RowError::MetricLog(e)),
        Ok(number) => Move::Ask(Stage::Metric(known, scale), Action::FormatMetric(number)),
    }
}

fn make_result(row: &BuildRow, known: Known, scale: u32, metric: String) -> (r: Move)
    ensures
        r@ == when_formatted(row@.revision, known@, scale, metric@),
{
    match &row.revision {
        None => Move::Fail(RowError::Missing(Column::Revision)),
        Some(revision) => match prefix(revision.as_str(), 8) {
            None => Move::Fail(RowError::RevisionNotCut),
            Some(short) => Move::Add(
                TestResult {
                    build_number: known.build_number,
                    builder_id: known.builder_id,
                    ctime: known.ctime,
                    metric,
                    revision: short,
                    scale,
                    timestamp: known.timestamp,
                },
            ),
        },
    }
}

/// The report on a test at one plant.
pub struct PlantReport {
    buildbot_url: String,
    test: String,
    rows: Vec<BuildRow>,
    next: usize,
    stage: Stage,
    scales: ResultsByScale,
}

#[verifier::ext_equal]
pub struct ReportView {
    /// The address of the build server.
    pub buildbot_url: Seq<char>,
    pub test: Seq<char>,
    /// All builds, in the order in which they are gone through.
    pub rows: Seq<BuildRowView>,
    /// The index of the build at hand.
    pub next: int,
    pub stage: StageView,
    /// The results so far.
    pub scales: ResultsByScaleView,
}

impl ReportView {
    /// Whether a build is at hand.
    pub open spec fn at_row(self) -> bool {
        match self.stage {
            StageView::Ready | StageView::Finished => false,
            _ => true,
        }
    }

    pub open spec fn wf(self) -> bool {
        &&& 0 <= self.next <= self.rows.len()
        &&& self.at_row() ==> self.next < self.rows.len()
    }
}

/// The views of a list of builds.
pub open spec fn row_views(rows: Seq<BuildRow>) -> Seq<BuildRowView> {
    Seq::new(rows.len(), |i: int| rows[i]@)
}

impl View for PlantReport {
    type V = ReportView;

    closed spec fn view(&self) -> ReportView {
        ReportView {
            buildbot_url: self.buildbot_url@,
            test: self.test@,
            rows: row_views(self.rows@),
            next: self.next as int,
            stage: self.stage@,
            scales: self.scales@,
        }
    }
}

/// The report before the first build.
pub open spec fn start_of(url: Seq<char>, test: Seq<char>, rows: Seq<BuildRowView>) -> ReportView {
    ReportView {
        buildbot_url: url,
        test,
        rows,
        next: 0,
        stage: StageView::Ready,
        scales: Map::empty(),
    }
}

/// The report and what it asks for, once it is clear what becomes of the build at hand.
pub open spec fn after_move(s: ReportView, m: MoveView) -> (ReportView, ActionView) {
    match m {
        MoveView::Ask(stage, action) => (ReportView { stage, ..s }, action),
        MoveView::Leave(action) => (
            ReportView { stage: StageView::Ready, next: s.next + 1, ..s },
            action,
        ),
        MoveView::Add(r) => (
            ReportView {
                stage: StageView::Ready,
                next: s.next + 1,
                scales: with_result(s.scales, s.rows[s.next].branch, r),
                ..s
            },
            ActionView::Added,
        ),
        MoveView::Fail(e) => (
            ReportView { stage: StageView::Failed(e), ..s },
            ActionView::Failed(e),
        ),
    }
}

/// The report and what it asks for, once it has been told something.
pub open spec fn step_of(s: ReportView, reply: ReplyView) -> (ReportView, ActionView) {
    let row = s.rows[s.next];
    match (s.stage, reply) {
        (StageView::Ready, ReplyView::Next) => if s.next == s.rows.len() {
            (
                ReportView { stage: StageView::Finished, scales: listed(s.scales), ..s },
                ActionView::Finished,
            )
        } else {
            after_move(s, when_started(row))
        },
        (StageView::Commit, ReplyView::Commit(shown)) => after_move(
            s,
            when_shown(s.buildbot_url, s.test, row, shown),
        ),
        (StageView::ScaleLog(known), ReplyView::Log(log)) => after_move(
            s,
            when_scale_fetched(s.buildbot_url, s.test, known, log),
        ),
        (StageView::MetricLog(known, scale), ReplyView::Log(log)) => after_move(
            s,
            when_metric_fetched(s.test, known, scale, log),
        ),
        (StageView::Metric(known, scale), ReplyView::Metric(metric)) => after_move(
            s,
            when_formatted(row.revision, known, scale, metric),
        ),
        _ => (s, ActionView::NotAwaited),
    }
}

impl PlantReport {
    /// The report on these builds, before the first of them.
    pub fn new(buildbot_url: String, test: String, rows: Vec<BuildRow>) -> (r: Self)
        ensures
            r@ == start_of(buildbot_url@, test@, row_views(rows@)),
            r@.wf(),
            r@.buildbot_url == buildbot_url@,
            r@.test == test@,
            r@.rows.len() == rows@.len(),
            forall|i: int| 0 <= i < rows@.len() ==> #[trigger] r@.rows[i] == rows@[i]@,
            r@.next == 0,
            r@.stage is Ready,
            r@.scales == Map::<u32, ResultsByBranchView>::empty(),
    {
        PlantReport {
            buildbot_url,
            test,
            rows,
            next: 0,
            stage: Stage::Ready,
            scales: SortedMap::new(),
        }
    }

    /// The build at hand, or the next one; none when all builds are done.
    pub fn row(&self) -> (r: Option<&BuildRow>)
        ensures
            match r {
                Some(row) => self@.next < self@.rows.len() && row@ == self@.rows[self@.next],
                None => self@.next >= self@.rows.len(),
            },
    {
        if self.next < self.rows.len() {
            Some(&self.rows[self.next])
        } else {
            None
        }
    }

    fn apply(&mut self, m: Move) -> (action: Action)
        requires
            old(self)@.wf(),
            old(self)@.next < old(self)@.rows.len(),
        ensures
            (final(self)@, action@) == after_move(old(self)@, m@),
    {
        assert(self.next < self.rows.len());
        match m {
            Move::Ask(stage, action) => {
                self.stage = stage;
                action
            },
            Move::Leave(action) => {
                self.stage = Stage::Ready;
                self.next = self.next + 1;
                action
            },
            Move::Add(result) => {
                let branch = self.rows[self.next].branch.clone();
                insert_result(&mut self.scales, branch, result);
                self.stage = Stage::Ready;
                self.next = self.next + 1;
                Action::Added
            },
            Move::Fail(e) => {
                self.stage = Stage::Failed(e);
                Action::Failed(e)
            },
        }
    }

    /// Tells the report what it waits for and says what it asks for next.
    pub fn step(&mut self, reply: Reply) -> (action: Action)
        requires
            old(self)@.wf(),
        ensures
            (final(self)@, action@) == step_of(old(self)@, reply@),
            final(self)@.wf(),
    {
        let mut stage = Stage::Ready;
        std::mem::swap(&mut stage, &mut self.stage);
        match (stage, reply) {
            (Stage::Ready, Reply::Next) => {
                if self.next == self.rows.len() {
                    let mut scales: ResultsByScale = SortedMap::new();
                    std::mem::swap(&mut scales, &mut self.scales);
                    self.scales = list_results(scales);
                    self.stage = Stage::Finished;
                    Action::Finished
                } else {
                    let m = start_row(&self.rows[self.next]);
                    self.apply(m)
                }
            },
            (Stage::Commit, Reply::Commit(shown)) => {
                let m = read_commit(
                    self.buildbot_url.as_str(),
                    self.test.as_str(),
                    &self.rows[self.next],
                    shown.as_slice(),
                );
                self.apply(m)
            },
            (Stage::ScaleLog(known), Reply::Log(log)) => {
                let m = read_scale(
                    self.buildbot_url.as_str(),
                    self.test.as_str(),
                    known,
                    log.as_slice(),
                );
                self.apply(m)
            },
            (Stage::MetricLog(known, scale), Reply::Log(log)) => {
                let m = read_metric(self.test.as_str(), known, scale, log.as_slice());
                self.apply(m)
            },
            (Stage::Metric(known, scale), Reply::Metric(metric)) => {
                let m = make_result(&self.rows[self.next], known, scale, metric);
                self.apply(m)
            },
            (stage, _) => {
                self.stage = stage;
                Action::NotAwaited
            },
        }
    }

    /// The test, the address of the build server and the results that were filed.
    pub fn into_parts(self) -> (r: (String, String, ResultsByScale))
        ensures
            r.0@ == self@.test,
            r.1@ == self@.buildbot_url,
            r.2@ == self@.scales,
    {
        (self.test, self.buildbot_url, self.scales)
    }
}

/// A report starts before its first build, with all builds in their order and no result.
pub proof fn law_start(url: Seq<char>, test: Seq<char>, rows: Seq<BuildRow>)
    ensures
        ({
            let s = start_of(url, test, row_views(rows));
            &&& s.buildbot_url == url
            &&& s.test == test
            &&& s.rows.len() == rows.len()
            &&& forall|i: int| 0 <= i < rows.len() ==> #[trigger] s.rows[i] == rows[i]@
            &&& s.next == 0
            &&& s.stage is Ready
            &&& forall|scale: u32| !(#[trigger] s.scales.contains_key(scale))
        }),
{
}

/// The scale factor of dbt2 and of dbt3 is in the log of the test, that of any other test in the
/// summary.
pub proof fn law_scale_log(test: Seq<char>, log_test_id: i32, log_summary_id: i32)
    ensures
        test == "dbt2"@ || test == "dbt3"@ ==> scale_log_of(test, log_test_id, log_summary_id)
            == log_test_id,
        test != "dbt2"@ && test != "dbt3"@ ==> scale_log_of(test, log_test_id, log_summary_id)
            == log_summary_id,
{
}

/// What is shown of a commit is taken for something else than UTF-8 exactly when it is no text's
/// encoding.
pub proof fn law_commit_is_not_utf8(shown: Seq<u8>)
    ensures
        commit_time_of(shown) == Err::<int, CommitTimeError>(CommitTimeError::NotUtf8) <==> !valid_utf8(
            shown,
        ),
{
}

/// The view of a build is its columns.
pub proof fn law_build_view(row: BuildRow)
    ensures
        row@.branch == row.branch@,
        row.revision matches Some(r) ==> row@.revision == Some(r@),
        row.revision is None ==> row@.revision is None,
        row@.scale == row.scale@,
        row@.builder_id == row.builder_id,
        row@.build_number == row.build_number,
        row@.log_summary_id == row.log_summary_id,
        row@.log_test_id == row.log_test_id,
{
}

/// The view of what is known of a build is its fields.
pub proof fn law_known_view(known: Known)
    ensures
        known@.ctime == known.ctime,
        known@.timestamp == known.timestamp@,
        known@.build_number == known.build_number,
        known@.builder_id == known.builder_id,
        known@.log_summary_id == known.log_summary_id,
{
}

/// The view of what the report is told is what it is told.
pub proof fn law_reply_view(reply: Reply)
    ensures
        reply is Next <==> reply@ is Next,
        reply matches Reply::Commit(b) ==> reply@ == ReplyView::Commit(b@),
        reply matches Reply::Log(b) ==> reply@ == ReplyView::Log(b@),
        reply matches Reply::Metric(t) ==> reply@ == ReplyView::Metric(t@),
{
}

/// The view of what the report asks for is what it asks for.
pub proof fn law_action_view(action: Action)
    ensures
        action matches Action::ShowCommit(t) ==> action@ == ActionView::ShowCommit(t@),
        action matches Action::FetchLog(t) ==> action@ == ActionView::FetchLog(t@),
        action matches Action::FormatMetric(t) ==> action@ == ActionView::FormatMetric(t@),
        action is Skipped <==> action@ is Skipped,
        action matches Action::Unreadable(e) ==> action@ == ActionView::Unreadable(e),
        action is Added <==> action@ is Added,
        action is Finished <==> action@ is Finished,
        action matches Action::Failed(e) ==> action@ == ActionView::Failed(e),
        action is NotAwaited <==> action@ is NotAwaited,
{
}

/// The view of what the report waits for is what it waits for.
pub proof fn law_stage_view(stage: Stage)
    ensures
        stage is Ready <==> stage@ is Ready,
        stage is Commit <==> stage@ is Commit,
        stage matches Stage::ScaleLog(k) ==> stage@ == StageView::ScaleLog(k@),
        stage matches Stage::MetricLog(k, n) ==> stage@ == StageView::MetricLog(k@, n),
        stage matches Stage::Metric(k, n) ==> stage@ == StageView::Metric(k@, n),
        stage is Finished <==> stage@ is Finished,
        stage matches Stage::Failed(e) ==> stage@ == StageView::Failed(e),
{
}

} // verus!
