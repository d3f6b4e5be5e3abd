//! What is known of each test: its names, its units and the patterns of its logs.
use vstd::prelude::*;

use crate::text::same_text;

verus! {

/// The tests that the dashboard knows.
pub open spec fn is_known(test: Seq<char>) -> bool {
    test == "dbt2"@ || test == "dbt3"@ || test == "dbt5"@ || test == "dbt7"@
}

/// The unit that a test's scale factor counts.
pub open spec fn unit_of(test: Seq<char>) -> Seq<char> {
    if test == "dbt2"@ {
        "Warehouses"@
    } else if test == "dbt3"@ {
        "Scale Factor"@
    } else if test == "dbt5"@ {
        "Customers"@
    } else if test == "dbt7"@ {
        "Scale Factor"@
    } else {
        "Unknown"@
    }
}

/// What a test's metric measures.
pub open spec fn metric_name_of(test: Seq<char>) -> Seq<char> {
    if test == "dbt2"@ {
        "New Orders per Minute"@
    } else if test == "dbt3"@ {
        "Queries per Hour"@
    } else if test == "dbt5"@ {
        "Trade Results per Second"@
    } else if test == "dbt7"@ {
        "Queries per Hour"@
    } else {
        "Unknown"@
    }
}

/// The name of the build step that reports a test's metric.
pub open spec fn summary_of(test: Seq<char>) -> Seq<char> {
    if test == "dbt2"@ {
        "DBT-2 Summary"@
    } else if test == "dbt3"@ {
        "DBT-3 Metrics"@
    } else if test == "dbt5"@ {
        "DBT-5 Summary"@
    } else if test == "dbt7"@ {
        "DBT-7 Summary"@
    } else {
        "Unknown"@
    }
}

/// The title of a test.
pub open spec fn title_of(test: Seq<char>) -> Seq<char> {
    if test == "dbt2"@ {
        "Database Test 2"@
    } else if test == "dbt3"@ {
        "Database Test 3"@
    } else if test == "dbt5"@ {
        "Database Test 5"@
    } else if test == "dbt7"@ {
        "Database Test 7"@
    } else {
        "Unknown"@
    }
}

/// The pattern whose first group is the metric in a test's summary log; it has no group for a
/// test that is not known.
pub open spec fn metric_pattern_of(test: Seq<char>) -> Seq<char> {
    if test == "dbt2"@ {
        "Throughput: ([0-9]+.[0-9]+)"@
    } else if test == "dbt3"@ {
        "Composite Score: +([0-9]+.[0-9]+)"@
    } else if test == "dbt5"@ {
        "Reported Throughput: +([0-9]+.[0-9]+)"@
    } else if test == "dbt7"@ {
        "Queries per Hour: ([0-9]+.[0-9]+)"@
    } else {
        ""@
    }
}

/// The pattern whose first group is the scale factor in a test's log; it has no group for a test
/// that is not known.
pub open spec fn scale_pattern_of(test: Seq<char>) -> Seq<char> {
    if test == "dbt2"@ {
        "SCALE FACTOR \\(WAREHOUSES\\): ([0-9]+)"@
    } else if test == "dbt3"@ {
        "SCALE: ([0-9]+)"@
    } else if test == "dbt5"@ {
        "Configured Customers: +([0-9]+)"@
    } else if test == "dbt7"@ {
        "Scale: +([0-9]+)"@
    } else {
        ""@
    }
}

/// The unit that a test's scale factor counts.
pub fn scale_factor_unit(test: &str) -> (r: String)
    ensures
        r@ == unit_of(test@),
{
    if same_text(test, "dbt2") {
        "Warehouses".to_owned()
    } else if same_text(test, "dbt3") {
        "Scale Factor".to_owned()
    } else if same_text(test, "dbt5") {
        "Customers".to_owned()
    } else if same_text(test, "dbt7") {
        "Scale Factor".to_owned()
    } else {
        "Unknown".to_owned()
    }
}

/// What a test's metric measures.
pub fn test_metric_name(test: &str) -> (r: String)
    ensures
        r@ == metric_name_of(test@),
{
    if same_text(test, "dbt2") {
        "New Orders per Minute".to_owned()
    } else if same_text(test, "dbt3") {
        "Queries per Hour".to_owned()
    } else if same_text(test, "dbt5") {
        "Trade Results per Second".to_owned()
    } else if same_text(test, "dbt7") {
        "Queries per Hour".to_owned()
    } else {
        "Unknown".to_owned()
    }
}

/// The name of the build step that reports a test's metric.
pub fn test_summary(test: &str) -> (r: String)
    ensures
        r@ == summary_of(test@),
{
    if same_text(test, "dbt2") {
        "DBT-2 Summary".to_owned()
    } else if same_text(test, "dbt3") {
        "DBT-3 Metrics".to_owned()
    } else if same_text(test, "dbt5") {
        "DBT-5 Summary".to_owned()
    } else if same_text(test, "dbt7") {
        "DBT-7 Summary".to_owned()
    } else {
        "Unknown".to_owned()
    }
}

/// The title of a test.
pub fn test_title(test: &str) -> (r: String)
    ensures
        r@ == title_of(test@),
{
    if same_text(test, "dbt2") {
        "Database Test 2".to_owned()
    } else if same_text(test, "dbt3") {
        "Database Test 3".to_owned()
    } else if same_text(test, "dbt5") {
        "Database Test 5".to_owned()
    } else if same_text(test, "dbt7") {
        "Database Test 7".to_owned()
    } else {
        "Unknown".to_owned()
    }
}

/// The pattern whose first group is the metric in a test's summary log; it has no group for a
/// test that is not known.
pub fn test_metric_re(test: &str) -> (r: String)
    ensures
        r@ == metric_pattern_of(test@),
{
    if same_text(test, "dbt2") {
        "Throughput: ([0-9]+.[0-9]+)".to_owned()
    } else if same_text(test, "dbt3") {
        "Composite Score: +([0-9]+.[0-9]+)".to_owned()
    } else if same_text(test, "dbt5") {
        "Reported Throughput: +([0-9]+.[0-9]+)".to_owned()
    } else if same_text(test, "dbt7") {
        "Queries per Hour: ([0-9]+.[0-9]+)".to_owned()
    } else {
        "".to_owned()
    }
}

/// The pattern whose first group is the scale factor in a test's log; it has no group for a test
/// that is not known.
pub fn test_scale_re(test: &str) -> (r: String)
    ensures
        r@ == scale_pattern_of(test@),
{
    if same_text(test, "dbt2") {
        "SCALE FACTOR \\(WAREHOUSES\\): ([0-9]+)".to_owned()
    } else if same_text(test, "dbt3") {
        "SCALE: ([0-9]+)".to_owned()
    } else if same_text(test, "dbt5") {
        "Configured Customers: +([0-9]+)".to_owned()
    } else if same_text(test, "dbt7") {
        "Scale: +([0-9]+)".to_owned()
    } else {
        "".to_owned()
    }
}

/// A test that is not known has the same answer to every question about its names, and no
/// pattern with a group.
pub proof fn law_unknown_test(test: Seq<char>)
    requires
        !is_known(test),
    ensures
        unit_of(test) == "Unknown"@,
        metric_name_of(test) == "Unknown"@,
        summary_of(test) == "Unknown"@,
        title_of(test) == "Unknown"@,
        metric_pattern_of(test) == ""@,
        scale_pattern_of(test) == ""@,
{
}

/// What each test is called, and what is looked for in its logs.
pub proof fn law_catalog(test: Seq<char>)
    ensures
        test == "dbt2"@ ==> {
            &&& unit_of(test) == "Warehouses"@
            &&& metric_name_of(test) == "New Orders per Minute"@
            &&& summary_of(test) == "DBT-2 Summary"@
            &&& title_of(test) == "Database Test 2"@
            &&& metric_pattern_of(test) == "Throughput: ([0-9]+.[0-9]+)"@
            &&& scale_pattern_of(test) == "SCALE FACTOR \\(WAREHOUSES\\): ([0-9]+)"@
        },
        test == "dbt3"@ ==> {
            &&& unit_of(test) == "Scale Factor"@
            &&& metric_name_of(test) == "Queries per Hour"@
            &&& summary_of(test) == "DBT-3 Metrics"@
            &&& title_of(test) == "Database Test 3"@
            &&& metric_pattern_of(test) == "Composite Score: +([0-9]+.[0-9]+)"@
            &&& scale_pattern_of(test) == "SCALE: ([0-9]+)"@
        },
        test == "dbt5"@ ==> {
            &&& unit_of(test) == "Customers"@
            &&& metric_name_of(test) == "Trade Results per Second"@
            &&& summary_of(test) == "DBT-5 Summary"@
            &&& title_of(test) == "Database Test 5"@
            &&& metric_pattern_of(test) == "Reported Throughput: +([0-9]+.[0-9]+)"@
            &&& scale_pattern_of(test) == "Configured Customers: +([0-9]+)"@
        },
        test == "dbt7"@ ==> {
            &&& unit_of(test) == "Scale Factor"@
            &&& metric_name_of(test) == "Queries per Hour"@
            &&& summary_of(test) == "DBT-7 Summary"@
            &&& title_of(test) == "Database Test 7"@
            &&& metric_pattern_of(test) == "Queries per Hour: ([0-9]+.[0-9]+)"@
            &&& scale_pattern_of(test) == "Scale: +([0-9]+)"@
        },
        test != "dbt2"@ && test != "dbt3"@ && test != "dbt5"@ && test != "dbt7"@ ==> {
            &&& unit_of(test) == "Unknown"@
            &&& metric_name_of(test) == "Unknown"@
            &&& summary_of(test) == "Unknown"@
            &&& title_of(test) == "Unknown"@
            &&& metric_pattern_of(test) == ""@
            &&& scale_pattern_of(test) == ""@
        },
{
    reveal_strlit("dbt2");
    reveal_strlit("dbt3");
    reveal_strlit("dbt5");
    reveal_strlit("dbt7");
    assert("dbt2"@[3] == '2' && "dbt3"@[3] == '3' && "dbt5"@[3] == '5' && "dbt7"@[3] == '7');
}

} // verus!
