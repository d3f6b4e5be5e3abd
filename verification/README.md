# pf_dashboard

A dashboard of database performance tests. Builds of the tests `dbt2`, `dbt3`, `dbt5` and `dbt7`
run on many plants; the dashboard shows the plants that have run a test, and the results of a test
at one plant by scale factor, branch and commit time.

- `src/` is the verified library.
  - `catalog`: the names, units and log patterns of the tests.
  - `text`: trimming, decimal numbers, UTF-8 prefixes and the order of texts.
  - `date`: the dates of commit times.
  - `logs`: the addresses of logs, and the numbers in them.
  - `sorted`: a map that keeps its entries in the order of their keys.
  - `results`: the results, filed by scale factor, branch and commit time.
  - `report`: the report on a test at one plant. It is a state machine: it says what it has to
    know of each build, and takes the answers.
  - `laws`: what holds of a whole report.
  - `pages`: what the pages show.
- `tests/` runs the library.
- `app/` is the web server: it asks the database, runs `git` and `curl`, and fills the templates.

Two calls into other crates are trusted, each with a contract of its own: `logs::capture` searches
a log with `regex`, and `date::format_utc` writes a date with `chrono`. `text::text_from_utf8`
trusts the standard library to decode UTF-8.
