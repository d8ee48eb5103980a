use cheese_scraper::crawl::{leaderboard_url, profile_url, run_page_url, NameCollector, RunCollector};
use cheese_scraper::runpage::RunRecord;

fn names(v: &[&str]) -> Vec<String> {
    v.iter().map(|s| s.to_string()).collect()
}

#[test]
fn urls() {
    assert_eq!(profile_url("EqualTurtle"), "https://jstris.jezevec10.com/u/EqualTurtle");
    assert_eq!(leaderboard_url(500), "https://jstris.jezevec10.com/api/leaderboard/3?mode=3&offset=500");
    assert_eq!(
        run_page_url("freyhoe", "0"),
        "https://jstris.jezevec10.com/cheese?display=5&user=freyhoe&lines=100L&page=0"
    );
}

#[test]
fn name_collector_pages_until_empty() {
    let mut c = NameCollector::new(None);
    assert!(c.absorb(names(&["a", "b", "a"])));
    assert_eq!(c.offset, 3);
    assert!(c.absorb(names(&["c", "b"])));
    assert_eq!(c.offset, 5);
    assert_eq!(c.names, names(&["a", "b", "c"]));
    assert!(!c.absorb(Vec::new()));
    assert_eq!(c.offset, 5);
}

#[test]
fn name_collector_stops_at_limit() {
    let mut c = NameCollector::new(Some(2));
    assert!(!c.absorb(names(&["a", "a", "b", "c"])));
    assert_eq!(c.names, names(&["a", "b"]));
    let mut z = NameCollector::new(Some(0));
    assert!(!z.absorb(names(&["x", "y"])));
    assert_eq!(z.names, names(&["x"]));
}

#[test]
fn run_collector_follows_pages() {
    let rec = |b: u32| RunRecord { blocks: b, date: String::new(), replay: None, pps: "1".to_string() };
    let mut c = RunCollector::new();
    assert_eq!(c.page, "0");
    assert!(c.absorb(vec![rec(1), rec(2)], Some("2".to_string())));
    assert_eq!(c.page, "2");
    assert!(!c.absorb(vec![rec(3)], None));
    assert_eq!(c.page, "2");
    assert_eq!(c.runs.iter().map(|r| r.blocks).collect::<Vec<_>>(), vec![1, 2, 3]);
}
