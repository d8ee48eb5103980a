use cheese_scraper::html::{Node, Row};
use cheese_scraper::model::{Country, CountryCode};
use cheese_scraper::numbers::IntError;
use cheese_scraper::profile::{profile_from_nodes, CountryTable};
use cheese_scraper::runpage::{next_page_from_links, record_from_row, FloatError, PageError};

fn cells(v: &[&str]) -> Row {
    Row { inner_html: "<td>row</td>".to_string(), cells: v.iter().map(|s| s.to_string()).collect() }
}

fn node(attrs: &[Option<&str>], text: Option<&str>) -> Node {
    Node {
        attrs: attrs.iter().map(|a| a.map(|s| s.to_string())).collect(),
        text: text.map(|s| s.to_string()),
        inner_html: String::new(),
    }
}

#[test]
fn record_from_row_reads_cells_in_order() {
    let r = record_from_row(&cells(&["1", "a", "b", "+12", "3.25", "c", "2024-02-02", "link"]), Some("L".to_string())).unwrap();
    assert_eq!(r.blocks, 12);
    assert_eq!(r.pps, "3.25");
    assert_eq!(r.date, "2024-02-02");
    assert_eq!(r.replay.as_deref(), Some("L"));
    let short = record_from_row(&cells(&["1", "a", "b", "12", "3.25", "c", "d"]), Some("L".to_string())).unwrap();
    assert!(short.replay.is_none());
}

#[test]
fn record_from_row_reports_first_bad_cell() {
    match record_from_row(&cells(&["1", "a", "b", "", "x"]), None) {
        Err(PageError::Blocks(IntError::Empty)) => {}
        other => panic!("{:?}", other),
    }
    match record_from_row(&cells(&["1", "a", "b", "5", ""]), None) {
        Err(PageError::Pps(FloatError::Empty)) => {}
        other => panic!("{:?}", other),
    }
    match record_from_row(&cells(&["1", "a", "b", "5", "1e3", "c"]), None) {
        Err(PageError::Unmatched(h)) => assert_eq!(h, "<td>row</td>"),
        other => panic!("{:?}", other),
    }
}

#[test]
fn next_page_takes_last_page_value() {
    let links = vec![
        node(&[Some("next"), Some("https://h/?x=1&page=3")], None),
        node(&[Some("prev"), Some("https://h/?page=9")], None),
        node(&[Some("next"), None], None),
        node(&[Some("next"), Some("https://h/?page=4.5&page=7")], None),
        node(&[Some("next"), Some("https://h/?nopage=1")], None),
    ];
    assert_eq!(next_page_from_links(&links).unwrap().as_deref(), Some("4.5"));
    assert!(next_page_from_links(&Vec::new()).unwrap().is_none());
}

#[test]
fn next_page_decodes_query_values() {
    let links = vec![node(&[Some("next"), Some("https://h/?page=%32")], None)];
    assert_eq!(next_page_from_links(&links).unwrap().as_deref(), Some("2"));
}

#[test]
fn profile_from_nodes_uses_last_known_flag_and_last_heading() {
    let countries = vec![Country {
        name: "Sweden".to_string(),
        region: String::new(),
        sub_region: String::new(),
        intermediate_region: String::new(),
        country_code: "752".to_string(),
    }];
    let table = CountryTable::from_lists(&countries, &vec![CountryCode { alpha_2: "SE".to_string() }]);
    let flags = vec![
        node(&[Some("flag"), Some("SE")], None),
        node(&[Some("flag"), Some("ZZ")], None),
        node(&[Some("flags"), Some("SE")], None),
    ];
    let heads = vec![node(&[Some("mainName")], Some(" one ")), node(&[Some("mainName")], Some("\ttwo\n"))];
    let (c, n) = profile_from_nodes(&flags, &heads, &table);
    assert_eq!(c.unwrap().name, "Sweden");
    assert_eq!(n.unwrap(), "two");
}
