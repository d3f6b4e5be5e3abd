use pf_dashboard::logs::LogError;
use pf_dashboard::report::{
    commit_time, scale_log, Action, BuildRow, Column, CommitTimeError, PlantReport, Reply,
    RowError,
};
use pf_dashboard::results::ResultsByScale;
use pf_dashboard::text::IntError;

fn build(branch: &str, revision: &str, scale: &str) -> BuildRow {
    BuildRow {
        branch: branch.to_string(),
        revision: Some(revision.to_string()),
        scale: scale.to_string(),
        builder_id: Some(3),
        build_number: Some(44),
        log_summary_id: Some(500),
        log_test_id: Some(600),
    }
}

fn report(test: &str, rows: Vec<BuildRow>) -> PlantReport {
    PlantReport::new("http://b".to_string(), test.to_string(), rows)
}

fn commit(text: &str) -> Reply {
    Reply::Commit(text.as_bytes().to_vec())
}

fn log(text: &str) -> Reply {
    Reply::Log(text.as_bytes().to_vec())
}

fn scales(report: PlantReport) -> ResultsByScale {
    report.into_parts().2
}

fn failure(action: Action) -> RowError {
    match action {
        Action::Failed(e) => e,
        other => panic!("{:?}", other),
    }
}

const REVISION: &str = "0123456789abcdef0123456789abcdef01234567";

#[test]
fn commit_times_are_read() {
    assert_eq!(commit_time(b"\"1700000000\"\n"), Ok(1700000000));
    assert_eq!(commit_time(b"  \"-5\" \n"), Ok(-5));
    assert_eq!(commit_time(b"12"), Ok(12));
    assert_eq!(commit_time(b"\"\"+12\""), Ok(12));
    assert_eq!(commit_time(b""), Err(CommitTimeError::NotNumber(IntError::Empty)));
    assert_eq!(commit_time(b"\"\"\n"), Err(CommitTimeError::NotNumber(IntError::Empty)));
    assert_eq!(
        commit_time(b"\" 12\""),
        Err(CommitTimeError::NotNumber(IntError::InvalidDigit))
    );
    assert_eq!(commit_time(&[0x22, 0xff]), Err(CommitTimeError::NotUtf8));
}

#[test]
fn logs_of_scales() {
    assert_eq!(scale_log("dbt2", 1, 2), 1);
    assert_eq!(scale_log("dbt3", 1, 2), 1);
    assert_eq!(scale_log("dbt5", 1, 2), 2);
    assert_eq!(scale_log("dbt7", 1, 2), 2);
    assert_eq!(scale_log("other", 1, 2), 2);
}

#[test]
fn a_build_with_its_scale() {
    let mut r = report("dbt2", vec![build("master", REVISION, "100")]);
    match r.step(Reply::Next) {
        Action::ShowCommit(revision) => assert_eq!(revision, REVISION),
        other => panic!("{:?}", other),
    }
    assert_eq!(r.row().unwrap().branch, "master");
    match r.step(commit("\"1700000000\"\n")) {
        Action::FetchLog(url) => assert_eq!(url, "http://b/api/v2/logs/500/raw_inline"),
        other => panic!("{:?}", other),
    }
    match r.step(log("Throughput: 1234.567")) {
        Action::FormatMetric(number) => assert_eq!(number, "1234.567"),
        other => panic!("{:?}", other),
    }
    assert!(matches!(r.step(Reply::Metric("1234.57".to_string())), Action::Added));
    assert!(r.row().is_none());
    assert!(matches!(r.step(Reply::Next), Action::Finished));
    let all = scales(r);
    let (scale, branches) = &all.entries()[0];
    assert_eq!(*scale, 100);
    let (branch, times) = &branches.entries()[0];
    assert_eq!(branch, "master");
    let (ctime, result) = &times.sorted.entries()[0];
    assert_eq!(*ctime, 1700000000);
    for result in [result, &times.reversed[0]] {
        assert_eq!(result.build_number, 44);
        assert_eq!(result.builder_id, 3);
        assert_eq!(result.ctime, 1700000000);
        assert_eq!(result.metric, "1234.57");
        assert_eq!(result.revision, "01234567");
        assert_eq!(result.scale, 100);
        assert_eq!(result.timestamp, "2023-11-14");
    }
    assert_eq!(times.reversed.len(), 1);
}

#[test]
fn a_build_without_its_scale() {
    for (test, id, text) in [
        ("dbt2", 600, "SCALE FACTOR (WAREHOUSES): 8"),
        ("dbt3", 600, "SCALE: 8"),
        ("dbt5", 500, "Configured Customers: 8"),
        ("dbt7", 500, "Scale: 8"),
    ] {
        let mut r = report(test, vec![build("master", REVISION, "0")]);
        r.step(Reply::Next);
        match r.step(commit("\"1\"")) {
            Action::FetchLog(url) => {
                assert_eq!(url, format!("http://b/api/v2/logs/{}/raw_inline", id))
            }
            other => panic!("{:?}", other),
        }
        match r.step(log(text)) {
            Action::FetchLog(url) => assert_eq!(url, "http://b/api/v2/logs/500/raw_inline"),
            other => panic!("{:?}", other),
        }
        let metric = "Throughput: 1.5 Composite Score: 1.5 Reported Throughput: 1.5 \
                      Queries per Hour: 1.5";
        assert!(matches!(r.step(log(metric)), Action::FormatMetric(_)));
        r.step(Reply::Metric("1.50".to_string()));
        r.step(Reply::Next);
        assert_eq!(scales(r).entries()[0].0, 8);
    }
}

#[test]
fn builds_are_left_out() {
    let mut blank = build("", REVISION, "1");
    blank.revision = None;
    let mut r = report("dbt2", vec![blank, build("master", "gone", "1")]);
    assert!(matches!(r.step(Reply::Next), Action::Skipped));
    match r.step(Reply::Next) {
        Action::ShowCommit(revision) => assert_eq!(revision, "gone"),
        other => panic!("{:?}", other),
    }
    assert!(matches!(r.step(commit("")), Action::Unreadable(IntError::Empty)));
    assert!(matches!(r.step(Reply::Next), Action::Finished));
    assert_eq!(scales(r).entries().len(), 0);
}

#[test]
fn left_out_builds_change_nothing() {
    let mut with = report("dbt7", vec![build("", REVISION, "1"), build("master", REVISION, "1")]);
    assert!(matches!(with.step(Reply::Next), Action::Skipped));
    let mut without = report("dbt7", vec![build("master", REVISION, "1")]);
    for r in [&mut with, &mut without] {
        r.step(Reply::Next);
        r.step(commit("10"));
        r.step(log("Queries per Hour: 2.0"));
        r.step(Reply::Metric("2.00".to_string()));
        assert!(matches!(r.step(Reply::Next), Action::Finished));
    }
    for r in [with, without] {
        let all = scales(r);
        assert_eq!(all.entries().len(), 1);
        let branches = all.entries()[0].1.entries();
        assert_eq!(branches.len(), 1);
        assert_eq!(branches[0].1.reversed.len(), 1);
        assert_eq!(branches[0].1.reversed[0].metric, "2.00");
    }
}

#[test]
fn later_builds_replace_and_lists_are_newest_first() {
    let rows = vec![
        build("master", REVISION, "1"),
        build("master", REVISION, "1"),
        build("master", "89abcdef01234567", "1"),
    ];
    let mut r = report("dbt7", rows);
    for (ctime, metric) in [("10", "first"), ("30", "second"), ("10", "third")] {
        r.step(Reply::Next);
        r.step(commit(ctime));
        r.step(log("Queries per Hour: 2.0"));
        assert!(matches!(r.step(Reply::Metric(metric.to_string())), Action::Added));
    }
    assert!(matches!(r.step(Reply::Next), Action::Finished));
    let all = scales(r);
    let times = &all.entries()[0].1.entries()[0].1;
    let list: Vec<(i64, &str, &str)> = times
        .reversed
        .iter()
        .map(|t| (t.ctime, t.metric.as_str(), t.revision.as_str()))
        .collect();
    assert_eq!(list, vec![(30, "second", "01234567"), (10, "third", "89abcdef")]);
    assert_eq!(times.sorted.entries().len(), 2);
}

#[test]
fn missing_columns_fail_when_they_are_due() {
    let mut row = build("master", REVISION, "1");
    row.revision = None;
    let mut r = report("dbt2", vec![row]);
    assert_eq!(failure(r.step(Reply::Next)), RowError::Missing(Column::Revision));

    let mut row = build("master", REVISION, "0");
    row.build_number = None;
    row.builder_id = None;
    let mut r = report("dbt2", vec![row]);
    r.step(Reply::Next);
    assert_eq!(failure(r.step(commit("1"))), RowError::Missing(Column::BuildNumber));

    let mut row = build("master", REVISION, "0");
    row.builder_id = None;
    row.log_summary_id = None;
    let mut r = report("dbt2", vec![row]);
    r.step(Reply::Next);
    assert_eq!(failure(r.step(commit("1"))), RowError::Missing(Column::BuilderId));

    let mut row = build("master", REVISION, "0");
    row.log_summary_id = None;
    row.log_test_id = None;
    let mut r = report("dbt2", vec![row]);
    r.step(Reply::Next);
    assert_eq!(failure(r.step(commit("1"))), RowError::Missing(Column::LogSummaryId));

    let mut row = build("master", REVISION, "0");
    row.log_test_id = None;
    let mut r = report("dbt5", vec![row]);
    r.step(Reply::Next);
    assert_eq!(failure(r.step(commit("1"))), RowError::Missing(Column::LogTestId));

    let mut row = build("master", REVISION, "1");
    row.log_test_id = None;
    let mut r = report("dbt5", vec![row]);
    r.step(Reply::Next);
    assert!(matches!(r.step(commit("1")), Action::FetchLog(_)));
}

#[test]
fn unusable_answers_fail() {
    let mut r = report("dbt2", vec![build("master", REVISION, "1")]);
    r.step(Reply::Next);
    assert_eq!(failure(r.step(Reply::Commit(vec![0xff]))), RowError::CommitNotUtf8);

    let mut r = report("dbt2", vec![build("master", REVISION, "1")]);
    r.step(Reply::Next);
    assert_eq!(
        failure(r.step(commit("9223372036854775807"))),
        RowError::CommitTimeOutOfRange
    );

    let mut r = report("dbt2", vec![build("master", REVISION, "ten")]);
    r.step(Reply::Next);
    assert_eq!(
        failure(r.step(commit("1"))),
        RowError::ScaleNotNumber(IntError::InvalidDigit)
    );

    let mut r = report("dbt2", vec![build("master", REVISION, "0")]);
    r.step(Reply::Next);
    r.step(commit("1"));
    assert_eq!(failure(r.step(log("nothing"))), RowError::ScaleLog(LogError::NoMatch));

    let mut r = report("dbt2", vec![build("master", REVISION, "1")]);
    r.step(Reply::Next);
    r.step(commit("1"));
    assert_eq!(failure(r.step(log("nothing"))), RowError::MetricLog(LogError::NoMatch));

    let mut r = report("dbt2", vec![build("master", "0123456", "1")]);
    r.step(Reply::Next);
    r.step(commit("1"));
    r.step(log("Throughput: 1.5"));
    assert_eq!(
        failure(r.step(Reply::Metric("1.50".to_string()))),
        RowError::RevisionNotCut
    );
    assert!(matches!(r.step(Reply::Next), Action::NotAwaited));
}

#[test]
fn what_is_not_awaited_changes_nothing() {
    let mut r = report("dbt2", vec![build("master", REVISION, "1")]);
    assert!(matches!(r.step(log("x")), Action::NotAwaited));
    r.step(Reply::Next);
    assert!(matches!(r.step(Reply::Next), Action::NotAwaited));
    assert!(matches!(r.step(log("x")), Action::NotAwaited));
    assert!(matches!(r.step(commit("1")), Action::FetchLog(_)));
    assert!(matches!(r.step(commit("1")), Action::NotAwaited));
    assert!(matches!(r.step(log("Throughput: 1.5")), Action::FormatMetric(_)));
    assert!(matches!(r.step(Reply::Metric("1.50".to_string())), Action::Added));
    assert!(matches!(r.step(Reply::Next), Action::Finished));
    assert!(matches!(r.step(Reply::Next), Action::NotAwaited));
}
