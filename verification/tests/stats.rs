use cheese_scraper::model::{CheeseRun, Player};
use cheese_scraper::stats::{compare, format_changes, format_drops, Change, Drop};

fn run(blocks: u32) -> CheeseRun {
    CheeseRun { blocks, date: String::new(), replay: None, pps: 0 }
}

fn player(name: &str, blocks: u32) -> Player {
    Player { name: name.to_string(), pb: run(blocks), country: None }
}

#[test]
fn change_line_matches_report_layout() {
    let c = Change { old: Some(run(30)), new: run(25), name: "bob".to_string(), old_place: Some(4), new_place: 1 };
    assert_eq!(c.to_string(), "   5 \u{25b2} 2   [ 30 \u{25b2} 25 ] bob");
    let n = Change { old: None, new: run(40), name: "newbie".to_string(), old_place: None, new_place: 0 };
    assert_eq!(n.to_string(), "     \u{25b2} 1   [    \u{25b2} 40 ] newbie");
}

#[test]
fn drop_line_matches_report_layout() {
    let d = Drop { old: run(40), old_place: 7, name: "alice".to_string() };
    assert_eq!(d.to_string(), "-  7 \u{25bc}     [40 ]       alice               ");
}

#[test]
fn compare_reports_climbers_newcomers_and_drops() {
    let old = vec![player("a", 20), player("b", 25), player("c", 30), player("gone", 35)];
    let new = vec![player("c", 18), player("a", 20), player("fresh", 22), player("b", 25)];
    let (changes, drops) = compare(&old, &new);
    assert_eq!(changes.len(), 2);
    assert_eq!(changes[0].name, "c");
    assert_eq!(changes[0].old_place, Some(2));
    assert_eq!(changes[0].new_place, 0);
    assert_eq!(changes[0].old.as_ref().unwrap().blocks, 30);
    assert_eq!(changes[0].new.blocks, 18);
    assert_eq!(changes[1].name, "fresh");
    assert_eq!(changes[1].old_place, None);
    assert_eq!(changes[1].new_place, 2);
    assert_eq!(drops.len(), 1);
    assert_eq!(drops[0].name, "gone");
    assert_eq!(drops[0].old_place, 3);
    assert_eq!(drops[0].old.blocks, 35);
}

#[test]
fn format_changes_skips_unchanged_blocks() {
    let changes = vec![
        Change { old: Some(run(30)), new: run(25), name: "bob".to_string(), old_place: Some(4), new_place: 1 },
        Change { old: Some(run(30)), new: run(30), name: "same".to_string(), old_place: Some(3), new_place: 2 },
    ];
    assert_eq!(
        format_changes(&changes),
        "```css\nImprovements\n   5 \u{25b2} 2   [ 30 \u{25b2} 25 ] bob\n```"
    );
    assert_eq!(format_changes(&Vec::new()), "```css\nImprovements\n```");
}

#[test]
fn format_drops_lists_every_drop() {
    let drops = vec![Drop { old: run(40), old_place: 7, name: "alice".to_string() }];
    assert_eq!(
        format_drops(&drops),
        "```diff\nDrops\n-  7 \u{25bc}     [40 ]       alice               \n```"
    );
    assert_eq!(format_drops(&Vec::new()), "```diff\nDrops\n```");
}
