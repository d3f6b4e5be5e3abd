//! What the pages of the dashboard show.
use vstd::prelude::*;

use crate::catalog::{
    metric_name_of, scale_factor_unit, summary_of, test_metric_name, test_summary, test_title,
    title_of, unit_of,
};
use crate::report::PlantReport;
use crate::results::ResultsByScale;
use crate::text::{is_white_space, law_strip, strip, trim, Edge};

verus! {

/// The file that is the home page at a path of the site.
pub fn home_file(path: &str) -> (r: String)
    ensures
        r@ == "."@ + path@ + "static/index.html"@,
{
    let mut file = ".".to_owned();
    file.append(path);
    file.append("static/index.html");
    file
}

/// What a worker says of itself.
#[derive(Debug)]
pub struct WorkerInfo {
    pub admin: String,
    pub host: String,
}

/// A plant that has run a test, as the database gives it, with what its worker says of itself.
#[derive(Debug)]
pub struct PlantRow {
    pub plant: String,
    pub worker: WorkerInfo,
    pub results: i64,
}

#[verifier::ext_equal]
pub struct PlantRowView {
    pub plant: Seq<char>,
    pub admin: Seq<char>,
    pub host: Seq<char>,
    pub results: i64,
}

impl View for PlantRow {
    type V = PlantRowView;

    open spec fn view(&self) -> PlantRowView {
        PlantRowView {
            plant: self.plant@,
            admin: self.worker.admin@,
            host: self.worker.host@,
            results: self.results,
        }
    }
}

/// A plant that has run a test.
#[derive(Debug)]
pub struct Plant {
    pub name: String,
    pub admin: String,
    pub host: String,
    pub results: i64,
}

#[verifier::ext_equal]
pub struct PlantView {
    pub name: Seq<char>,
    pub admin: Seq<char>,
    pub host: Seq<char>,
    pub results: i64,
}

impl View for Plant {
    type V = PlantView;

    open spec fn view(&self) -> PlantView {
        PlantView {
            name: self.name@,
            admin: self.admin@,
            host: self.host@,
            results: self.results,
        }
    }
}

/// A plant as it is shown: without the white space around what its worker says of itself.
pub open spec fn plant_of(row: PlantRowView) -> PlantView {
    PlantView {
        name: row.plant,
        admin: strip(row.admin, Edge::WhiteSpace),
        host: strip(row.host, Edge::WhiteSpace),
        results: row.results,
    }
}

/// A plant is shown with the name and the number of results that the database gives, whatever
/// they are, and with what its worker says of itself: that text without the white space at its
/// ends, and with all the rest of it.
pub proof fn law_plant_is_shown_as_given(
    row: PlantRowView,
    before_admin: Seq<char>,
    admin: Seq<char>,
    after_admin: Seq<char>,
    before_host: Seq<char>,
    host: Seq<char>,
    after_host: Seq<char>,
)
    requires
        row.admin == before_admin + admin + after_admin,
        row.host == before_host + host + after_host,
        forall|i: int| 0 <= i < before_admin.len() ==> is_white_space(#[trigger] before_admin[i]),
        forall|i: int| 0 <= i < after_admin.len() ==> is_white_space(#[trigger] after_admin[i]),
        forall|i: int| 0 <= i < before_host.len() ==> is_white_space(#[trigger] before_host[i]),
        forall|i: int| 0 <= i < after_host.len() ==> is_white_space(#[trigger] after_host[i]),
        admin.len() > 0 ==> !is_white_space(admin.first()) && !is_white_space(admin.last()),
        host.len() > 0 ==> !is_white_space(host.first()) && !is_white_space(host.last()),
    ensures
        plant_of(row).name == row.plant,
        plant_of(row).admin == admin,
        plant_of(row).host == host,
        plant_of(row).results == row.results,
{
    law_strip(before_admin, admin, after_admin, Edge::WhiteSpace);
    law_strip(before_host, host, after_host, Edge::WhiteSpace);
}

/// Plants that are shown alike have the same name and the same number of results.
pub proof fn law_plants_differ(a: PlantRowView, b: PlantRowView)
    requires
        a.plant != b.plant || a.results != b.results,
    ensures
        plant_of(a) != plant_of(b),
{
}

/// The views of a plant, as given and as shown, are its fields.
pub proof fn law_plant_views(row: PlantRow, plant: Plant)
    ensures
        row@.plant == row.plant@,
        row@.admin == row.worker.admin@,
        row@.host == row.worker.host@,
        row@.results == row.results,
        plant@.name == plant.name@,
        plant@.admin == plant.admin@,
        plant@.host == plant.host@,
        plant@.results == plant.results,
{
}

/// A plant as it is shown: without the white space around what its worker says of itself.
pub fn show_plant(row: PlantRow) -> (r: Plant)
    ensures
        r@ == plant_of(row@),
        r.name@ == row.plant@,
        r.admin@ == strip(row.worker.admin@, Edge::WhiteSpace),
        r.host@ == strip(row.worker.host@, Edge::WhiteSpace),
        r.results == row.results,
{
    Plant {
        name: row.plant,
        admin: trim(row.worker.admin.as_str()),
        host: trim(row.worker.host.as_str()),
        results: row.results,
    }
}

/// The page of a test: the plants that have run it.
#[derive(Debug)]
pub struct TestPage {
    pub test: String,
    pub plants: Vec<Plant>,
    pub title: String,
}

/// The page of a test, with one plant for each row, in the order of the rows.
pub fn test_page(test: String, rows: Vec<PlantRow>) -> (page: TestPage)
    ensures
        page.test@ == test@,
        page.title@ == title_of(test@),
        page.plants@.len() == rows@.len(),
        forall|i: int| 0 <= i < rows@.len() ==> (#[trigger] page.plants@[i])@ == plant_of(rows@[i]@),
        forall|i: int|
            0 <= i < rows@.len() ==> {
                let plant = #[trigger] page.plants@[i];
                &&& plant.name@ == rows@[i].plant@
                &&& plant.admin@ == strip(rows@[i].worker.admin@, Edge::WhiteSpace)
                &&& plant.host@ == strip(rows@[i].worker.host@, Edge::WhiteSpace)
                &&& plant.results == rows@[i].results
            },
{
    let title = test_title(test.as_str());
    let mut plants: Vec<Plant> = Vec::new();
    for row in it: rows
        invariant
            it.seq() == rows@,
            plants@.len() == it.index(),
            forall|i: int| 0 <= i < plants@.len() ==> (#[trigger] plants@[i])@ == plant_of(rows@[i]@),
            forall|i: int|
                0 <= i < plants@.len() ==> {
                    let plant = #[trigger] plants@[i];
                    &&& plant.name@ == rows@[i].plant@
                    &&& plant.admin@ == strip(rows@[i].worker.admin@, Edge::WhiteSpace)
                    &&& plant.host@ == strip(rows@[i].worker.host@, Edge::WhiteSpace)
                    &&& plant.results == rows@[i].results
                },
    {
        plants.push(show_plant(row));
    }
    TestPage { test, plants, title }
}

/// What the query for the builds of a test at a plant is made with.
#[derive(Debug)]
pub struct PlantQuery {
    /// The name of the test's builder.
    pub test: String,
    /// The pattern of the names of the test's other builders.
    pub variants: String,
    pub plant: String,
    /// The name of the step that reports the metric.
    pub summary: String,
}

/// What the query for the builds of a test at a plant is made with. A builder belongs to a test
/// when it has the test's name, or when a hyphen and more follow that name.
pub fn plant_query(test: &str, plant: &str) -> (q: PlantQuery)
    ensures
        q.test@ == test@,
        q.variants@ == test@ + "-%"@,
        q.plant@ == plant@,
        q.summary@ == summary_of(test@),
{
    let mut variants = test.to_owned();
    variants.append("-%");
    PlantQuery {
        test: test.to_owned(),
        variants,
        plant: plant.to_owned(),
        summary: test_summary(test),
    }
}

/// The page of a test at one plant.
pub struct TestPlantPage {
    pub test: String,
    pub plant: String,
    pub buildbot_url: String,
    pub postgres_commit_url: String,
    pub scales: ResultsByScale,
    pub metric_name: String,
    pub title: String,
    pub unit: String,
}

/// The page of a test at one plant, made of the finished report on it.
pub fn test_plant_page(
    report: PlantReport,
    plant: String,
    postgres_commit_url: String,
) -> (page: TestPlantPage)
    requires
        report@.stage is Finished,
    ensures
        page.test@ == report@.test,
        page.plant@ == plant@,
        page.buildbot_url@ == report@.buildbot_url,
        page.postgres_commit_url@ == postgres_commit_url@,
        page.scales@ == report@.scales,
        page.metric_name@ == metric_name_of(report@.test),
        page.title@ == title_of(report@.test),
        page.unit@ == unit_of(report@.test),
{
    let (test, buildbot_url, scales) = report.into_parts();
    let metric_name = test_metric_name(test.as_str());
    let title = test_title(test.as_str());
    let unit = scale_factor_unit(test.as_str());
    TestPlantPage {
        test,
        plant,
        buildbot_url,
        postgres_commit_url,
        scales,
        metric_name,
        title,
        unit,
    }
}

} // verus!
