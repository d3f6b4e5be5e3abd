use pf_dashboard::pages::{
    home_file, plant_query, show_plant, test_page, test_plant_page, PlantRow, WorkerInfo,
};
use pf_dashboard::report::{Action, PlantReport, Reply};

fn plant_row(plant: &str, admin: &str, host: &str, results: i64) -> PlantRow {
    PlantRow {
        plant: plant.to_string(),
        worker: WorkerInfo { admin: admin.to_string(), host: host.to_string() },
        results,
    }
}

#[test]
fn the_home_page() {
    assert_eq!(home_file("/"), "./static/index.html");
    assert_eq!(home_file("/sub/"), "./sub/static/index.html");
}

#[test]
fn plants_are_shown_without_white_space() {
    let plant = show_plant(plant_row(" p ", " A B <a@b>\n", "\tLinux \n\n", 3));
    assert_eq!(plant.name, " p ");
    assert_eq!(plant.admin, "A B <a@b>");
    assert_eq!(plant.host, "Linux");
    assert_eq!(plant.results, 3);
}

#[test]
fn the_page_of_a_test() {
    let page = test_page(
        "dbt5".to_string(),
        vec![plant_row("x", "a", "h", 1), plant_row("y", " b ", " i ", -2)],
    );
    assert_eq!(page.test, "dbt5");
    assert_eq!(page.title, "Database Test 5");
    assert_eq!(page.plants.len(), 2);
    assert_eq!(page.plants[0].name, "x");
    assert_eq!(page.plants[1].name, "y");
    assert_eq!(page.plants[1].admin, "b");
    assert_eq!(page.plants[1].host, "i");
    assert_eq!(page.plants[1].results, -2);
}

#[test]
fn the_query_of_a_plant() {
    let q = plant_query("dbt3", "plant-1");
    assert_eq!(q.test, "dbt3");
    assert_eq!(q.variants, "dbt3-%");
    assert_eq!(q.plant, "plant-1");
    assert_eq!(q.summary, "DBT-3 Metrics");
}

#[test]
fn the_page_of_a_plant() {
    let mut report = PlantReport::new("http://b".to_string(), "dbt2".to_string(), Vec::new());
    assert!(matches!(report.step(Reply::Next), Action::Finished));
    let page = test_plant_page(report, "p".to_string(), "http://git/".to_string());
    assert_eq!(page.test, "dbt2");
    assert_eq!(page.plant, "p");
    assert_eq!(page.buildbot_url, "http://b");
    assert_eq!(page.postgres_commit_url, "http://git/");
    assert_eq!(page.metric_name, "New Orders per Minute");
    assert_eq!(page.title, "Database Test 2");
    assert_eq!(page.unit, "Warehouses");
    assert_eq!(page.scales.entries().len(), 0);
}
