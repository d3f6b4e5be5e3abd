use pf_dashboard::catalog::{
    scale_factor_unit, test_metric_name, test_metric_re, test_scale_re, test_summary, test_title,
};

#[test]
fn units_of_scale_factors() {
    assert_eq!(scale_factor_unit("dbt2"), "Warehouses");
    assert_eq!(scale_factor_unit("dbt3"), "Scale Factor");
    assert_eq!(scale_factor_unit("dbt5"), "Customers");
    assert_eq!(scale_factor_unit("dbt7"), "Scale Factor");
}

#[test]
fn names_of_metrics() {
    assert_eq!(test_metric_name("dbt2"), "New Orders per Minute");
    assert_eq!(test_metric_name("dbt3"), "Queries per Hour");
    assert_eq!(test_metric_name("dbt5"), "Trade Results per Second");
    assert_eq!(test_metric_name("dbt7"), "Queries per Hour");
}

#[test]
fn names_of_summary_steps() {
    assert_eq!(test_summary("dbt2"), "DBT-2 Summary");
    assert_eq!(test_summary("dbt3"), "DBT-3 Metrics");
    assert_eq!(test_summary("dbt5"), "DBT-5 Summary");
    assert_eq!(test_summary("dbt7"), "DBT-7 Summary");
}

#[test]
fn titles() {
    assert_eq!(test_title("dbt2"), "Database Test 2");
    assert_eq!(test_title("dbt3"), "Database Test 3");
    assert_eq!(test_title("dbt5"), "Database Test 5");
    assert_eq!(test_title("dbt7"), "Database Test 7");
}

#[test]
fn patterns_of_metrics() {
    assert_eq!(test_metric_re("dbt2"), r"Throughput: ([0-9]+.[0-9]+)");
    assert_eq!(test_metric_re("dbt3"), r"Composite Score: +([0-9]+.[0-9]+)");
    assert_eq!(test_metric_re("dbt5"), r"Reported Throughput: +([0-9]+.[0-9]+)");
    assert_eq!(test_metric_re("dbt7"), r"Queries per Hour: ([0-9]+.[0-9]+)");
}

#[test]
fn patterns_of_scales() {
    assert_eq!(test_scale_re("dbt2"), r"SCALE FACTOR \(WAREHOUSES\): ([0-9]+)");
    assert_eq!(test_scale_re("dbt3"), r"SCALE: ([0-9]+)");
    assert_eq!(test_scale_re("dbt5"), r"Configured Customers: +([0-9]+)");
    assert_eq!(test_scale_re("dbt7"), r"Scale: +([0-9]+)");
}

#[test]
fn unknown_tests_are_unknown() {
    for test in ["", "dbt1", "DBT2", "dbt2 ", "dbt22", "dbt"] {
        assert_eq!(scale_factor_unit(test), "Unknown");
        assert_eq!(test_metric_name(test), "Unknown");
        assert_eq!(test_summary(test), "Unknown");
        assert_eq!(test_title(test), "Unknown");
        assert_eq!(test_metric_re(test), "");
        assert_eq!(test_scale_re(test), "");
    }
}
