use cheese_scraper::model::{Country, CountryCode};
use cheese_scraper::numbers::IntError;
use cheese_scraper::profile::{parse_profile, CountryTable};
use cheese_scraper::runpage::{parse_run_page, FloatError, PageError};

fn country(name: &str) -> Country {
    Country {
        name: name.to_string(),
        region: "r".to_string(),
        sub_region: "s".to_string(),
        intermediate_region: String::new(),
        country_code: "1".to_string(),
    }
}

fn table() -> CountryTable {
    let countries = vec![country("Norway"), country("Czechia"), country("Czech Republic")];
    let codes = vec![
        CountryCode { alpha_2: "NO".to_string() },
        CountryCode { alpha_2: "CZ".to_string() },
        CountryCode { alpha_2: "CZ".to_string() },
    ];
    CountryTable::from_lists(&countries, &codes)
}

#[test]
fn country_table_looks_up_last_entry() {
    let t = table();
    assert_eq!(t.get(&"NO".to_string()).unwrap().name, "Norway");
    assert_eq!(t.get(&"CZ".to_string()).unwrap().name, "Czech Republic");
    assert!(t.get(&"SE".to_string()).is_none());
}

#[test]
fn profile_reads_flag_and_name() {
    let html = r#"<html><body>
        <img class="avatar" alt="NO">
        <img class="flag" alt="XX">
        <img class="flag" alt="NO">
        <h1 class="other">Not me</h1>
        <h1 class="mainName">  FrEyHOE  <small>x</small></h1>
    </body></html>"#;
    let (c, name) = parse_profile(html, &table()).unwrap();
    assert_eq!(c.unwrap().name, "Norway");
    assert_eq!(name.unwrap(), "FrEyHOE");
}

#[test]
fn profile_without_flag_or_name() {
    let (c, name) = parse_profile("<p>nothing</p>", &table()).unwrap();
    assert!(c.is_none());
    assert!(name.is_none());
}

#[test]
fn profile_with_empty_main_name_is_refused() {
    assert!(parse_profile(r#"<h1 class="mainName"></h1>"#, &table()).is_none());
}

fn page(rows: &str, links: &str) -> String {
    format!("<html><body><table><tr><th>#</th></tr>{}</table>{}</body></html>", rows, links)
}

const ROW: &str = r#"<tr><td>1</td><td>x</td><td>y</td><td>25</td><td>2.5</td><td>z</td><td>2023-01-01</td><td><a href="https://replay/1">r</a></td></tr>"#;

#[test]
fn run_page_reads_runs_and_next_page() {
    let next = r#"<a href="/x">other</a><a rel="next" href="https://jstris.jezevec10.com/cheese?display=5&user=a&lines=100L&page=2">next</a>"#;
    let (runs, next_page) = parse_run_page(&page(ROW, next)).unwrap();
    assert_eq!(runs.len(), 1);
    assert_eq!(runs[0].blocks, 25);
    assert_eq!(runs[0].pps, "2.5");
    assert_eq!(runs[0].date, "2023-01-01");
    assert_eq!(runs[0].replay.as_deref(), Some("https://replay/1"));
    assert_eq!(next_page.as_deref(), Some("2"));
}

#[test]
fn run_page_without_replay_or_next() {
    let row = r#"<tr><td>1</td><td>x</td><td>y</td><td>30</td><td>1</td><td>z</td><td>d</td></tr>"#;
    let (runs, next_page) = parse_run_page(&page(row, "")).unwrap();
    assert_eq!(runs.len(), 1);
    assert!(runs[0].replay.is_none());
    assert!(next_page.is_none());
}

#[test]
fn run_page_errors() {
    let bad_blocks = r#"<tr><td>1</td><td>x</td><td>y</td><td>many</td><td>2.5</td><td>z</td><td>d</td></tr>"#;
    match parse_run_page(&page(bad_blocks, "")) {
        Err(PageError::Blocks(IntError::InvalidDigit)) => {}
        other => panic!("{:?}", other),
    }
    let bad_pps = r#"<tr><td>1</td><td>x</td><td>y</td><td>3</td><td>fast</td><td>z</td><td>d</td></tr>"#;
    match parse_run_page(&page(bad_pps, "")) {
        Err(PageError::Pps(FloatError::Invalid)) => {}
        other => panic!("{:?}", other),
    }
    let short = r#"<tr><td>1</td><td>x</td></tr>"#;
    match parse_run_page(&page(short, "")) {
        Err(e @ PageError::Unmatched(_)) => {
            assert_eq!(e.message(), "html pattern can't be matched: <td>1</td><td>x</td>")
        }
        other => panic!("{:?}", other),
    }
    let bad_page = r#"<a rel="next" href="https://h/?page=two">n</a>"#;
    match parse_run_page(&page(ROW, bad_page)) {
        Err(PageError::Page(FloatError::Invalid)) => {}
        other => panic!("{:?}", other),
    }
    let bad_url = r#"<a rel="next" href="not a url">n</a>"#;
    match parse_run_page(&page(ROW, bad_url)) {
        Err(PageError::Url(m)) => assert_eq!(m, "relative URL without a base"),
        other => panic!("{:?}", other),
    }
}

#[test]
fn page_error_messages() {
    assert_eq!(PageError::Blocks(IntError::Empty).message(), "cannot parse integer from empty string");
    assert_eq!(PageError::Pps(FloatError::Empty).message(), "cannot parse float from empty string");
    assert_eq!(PageError::Page(FloatError::Invalid).message(), "invalid float literal");
}
