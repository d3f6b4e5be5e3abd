use pf_dashboard::results::{
    insert_result, list_results, ResultsByBranch, ResultsByScale, ResultsByTime, TestResult,
};
use pf_dashboard::sorted::SortedMap;

fn result(scale: u32, ctime: i64, metric: &str) -> TestResult {
    TestResult {
        build_number: 1,
        builder_id: 2,
        ctime,
        metric: metric.to_string(),
        revision: "01234567".to_string(),
        scale,
        timestamp: "1970-01-01".to_string(),
    }
}

fn flat(results: &ResultsByScale) -> Vec<(u32, String, i64, String)> {
    let mut all = Vec::new();
    for (scale, branches) in results.entries() {
        for (branch, times) in branches.entries() {
            for (ctime, r) in times.sorted.entries() {
                assert_eq!(r.scale, *scale);
                assert_eq!(r.ctime, *ctime);
                all.push((*scale, branch.clone(), *ctime, r.metric.clone()));
            }
        }
    }
    all
}

fn row(scale: u32, branch: &str, ctime: i64, metric: &str) -> (u32, String, i64, String) {
    (scale, branch.to_string(), ctime, metric.to_string())
}

#[test]
fn results_are_filed_in_order() {
    let mut results: ResultsByScale = SortedMap::new();
    insert_result(&mut results, "master".to_string(), result(10, 200, "a"));
    insert_result(&mut results, "REL_16".to_string(), result(2, 50, "b"));
    insert_result(&mut results, "REL_16".to_string(), result(10, 300, "c"));
    insert_result(&mut results, "master".to_string(), result(10, -5, "d"));
    assert_eq!(
        flat(&results),
        vec![
            row(2, "REL_16", 50, "b"),
            row(10, "REL_16", 300, "c"),
            row(10, "master", -5, "d"),
            row(10, "master", 200, "a"),
        ]
    );
}

#[test]
fn a_later_result_replaces() {
    let mut results: ResultsByScale = SortedMap::new();
    insert_result(&mut results, "master".to_string(), result(1, 7, "old"));
    insert_result(&mut results, "master".to_string(), result(1, 8, "kept"));
    insert_result(&mut results, "master".to_string(), result(1, 7, "new"));
    assert_eq!(
        flat(&results),
        vec![row(1, "master", 7, "new"), row(1, "master", 8, "kept")]
    );
}

#[test]
fn filing_commutes() {
    let mut one: ResultsByScale = SortedMap::new();
    insert_result(&mut one, "a".to_string(), result(1, 7, "x"));
    insert_result(&mut one, "b".to_string(), result(1, 7, "y"));
    let mut two: ResultsByScale = SortedMap::new();
    insert_result(&mut two, "b".to_string(), result(1, 7, "y"));
    insert_result(&mut two, "a".to_string(), result(1, 7, "x"));
    assert_eq!(flat(&one), flat(&two));
}

#[test]
fn lists_are_newest_first() {
    let mut results: ResultsByScale = SortedMap::new();
    for ctime in [30, 10, 20] {
        insert_result(&mut results, "master".to_string(), result(1, ctime, "m"));
    }
    insert_result(&mut results, "other".to_string(), result(1, 5, "o"));
    insert_result(&mut results, "master".to_string(), result(3, 6, "p"));
    let listed = list_results(results);
    assert_eq!(flat(&listed).len(), 5);
    let scales = listed.entries();
    assert_eq!(scales.len(), 2);
    let master = &scales[0].1.entries()[0];
    assert_eq!(master.0, "master");
    let times: Vec<i64> = master.1.reversed.iter().map(|r| r.ctime).collect();
    assert_eq!(times, vec![30, 20, 10]);
    let first = &master.1.reversed[0];
    assert_eq!(first.metric, "m");
    assert_eq!(first.revision, "01234567");
    assert_eq!(first.timestamp, "1970-01-01");
    assert_eq!((first.build_number, first.builder_id, first.scale), (1, 2, 1));
    assert_eq!(scales[0].1.entries()[1].1.reversed.len(), 1);
    assert_eq!(scales[1].1.entries()[0].1.reversed[0].ctime, 6);
}

#[test]
fn lists_grow_at_the_back() {
    let mut sorted: SortedMap<i64, TestResult> = SortedMap::new();
    sorted.insert(9, result(1, 4, "m"));
    let times = ResultsByTime { sorted, reversed: vec![result(1, 99, "before")] };
    let mut branches: ResultsByBranch = SortedMap::new();
    branches.insert("master".to_string(), times);
    let mut results: ResultsByScale = SortedMap::new();
    results.insert(1, branches);
    let listed = list_results(results);
    let reversed = &listed.entries()[0].1.entries()[0].1.reversed;
    assert_eq!(reversed.len(), 2);
    assert_eq!(reversed[0].metric, "before");
    assert_eq!(reversed[1].ctime, 9);
}

#[test]
fn nothing_is_listed_of_nothing() {
    let results: ResultsByScale = SortedMap::new();
    assert_eq!(list_results(results).entries().len(), 0);
}

#[test]
fn a_sorted_map_agrees_with_std() {
    let mut ours: SortedMap<i64, TestResult> = SortedMap::new();
    let mut std_map: std::collections::BTreeMap<i64, String> = std::collections::BTreeMap::new();
    let mut seed: i64 = 17;
    for step in 0..400 {
        seed = (seed * 1103515245 + 12345) % 2147483648;
        let key = seed % 40 - 20;
        if step % 3 == 2 {
            let taken = ours.take(&key).map(|r| r.metric);
            assert_eq!(taken, std_map.remove(&key));
        } else {
            ours.insert(key, result(1, key, &step.to_string()));
            std_map.insert(key, step.to_string());
        }
        let a: Vec<(i64, String)> =
            ours.entries().iter().map(|(k, r)| (*k, r.metric.clone())).collect();
        let b: Vec<(i64, String)> = std_map.iter().map(|(k, m)| (*k, m.clone())).collect();
        assert_eq!(a, b);
    }
    while let Some((k, r)) = ours.pop_last() {
        assert_eq!(std_map.pop_last(), Some((k, r.metric)));
    }
    assert!(std_map.is_empty());
}
