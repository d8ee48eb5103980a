use cheese_scraper::leaderboard::{build_leaderboard, list_contains, LEADERBOARD_SIZE};
use cheese_scraper::model::{CheeseRun, Country, Player};
use cheese_scraper::ranking::{best_player, best_run, sort_players, upsert_player};
use std::cmp::Ordering;

fn run(blocks: u32, pps: u64) -> CheeseRun {
    CheeseRun { blocks, date: format!("d{}", blocks), replay: None, pps }
}

fn player(name: &str, blocks: u32, pps: u64) -> Player {
    Player { name: name.to_string(), pb: run(blocks, pps), country: None }
}

fn names(v: &[Player]) -> Vec<String> {
    v.iter().map(|p| p.name.clone()).collect()
}

#[test]
fn cmp_prefers_fewer_blocks_then_higher_pps() {
    let a = player("a", 20, 5);
    let b = player("b", 30, 9);
    let c = player("c", 20, 7);
    assert_eq!(a.cmp(&b), Ordering::Greater);
    assert_eq!(b.cmp(&a), Ordering::Less);
    assert_eq!(c.cmp(&a), Ordering::Greater);
    assert_eq!(a.cmp(&c), Ordering::Less);
    assert_eq!(a.cmp(&player("x", 20, 5)), Ordering::Equal);
    assert_eq!(a.partial_cmp(&b), Some(Ordering::Less));
    assert_eq!(b.partial_cmp(&a), Some(Ordering::Greater));
    assert!(a.eq(&player("other", 20, 5)));
    assert!(!a.eq(&c));
}

#[test]
fn sort_puts_best_first_and_keeps_ties_in_order() {
    let mut v = vec![
        player("slow", 40, 1),
        player("tie1", 25, 3),
        player("fast", 20, 2),
        player("tie2", 25, 3),
        player("quick", 25, 9),
    ];
    sort_players(&mut v);
    assert_eq!(names(&v), vec!["fast", "quick", "tie1", "tie2", "slow"]);
}

#[test]
fn sort_of_empty_is_empty() {
    let mut v: Vec<Player> = Vec::new();
    sort_players(&mut v);
    assert!(v.is_empty());
}

#[test]
fn best_run_takes_first_of_the_best() {
    let runs = vec![run(30, 1), run(22, 4), run(22, 8), run(40, 99), run(22, 8)];
    let mut third = run(22, 8);
    third.date = "first-best".to_string();
    let mut runs = runs;
    runs[2] = third;
    let best = best_run(runs).unwrap();
    assert_eq!(best.blocks, 22);
    assert_eq!(best.pps, 8);
    assert_eq!(best.date, "first-best");
    assert!(best_run(Vec::new()).is_none());
}

#[test]
fn best_player_takes_last_of_the_best() {
    let v = vec![player("a", 22, 8), player("b", 30, 1), player("c", 22, 8), player("d", 22, 2)];
    assert_eq!(best_player(v).unwrap().name, "c");
    assert!(best_player(Vec::new()).is_none());
}

#[test]
fn upsert_replaces_by_name_and_resorts() {
    let mut v = vec![player("a", 20, 1), player("b", 30, 1), player("c", 40, 1)];
    upsert_player(&mut v, player("c", 10, 1));
    assert_eq!(names(&v), vec!["c", "a", "b"]);
    assert_eq!(v[0].pb.blocks, 10);
    upsert_player(&mut v, player("new", 25, 1));
    assert_eq!(names(&v), vec!["c", "a", "new", "b"]);
    assert_eq!(v.len(), 4);
}

#[test]
fn upsert_swap_removal_orders_ties() {
    // "a" leaves its place to the last entry before the list is sorted again,
    // so the tied "c" comes before "b" afterwards.
    let mut v = vec![player("a", 10, 1), player("b", 30, 1), player("c", 30, 1)];
    upsert_player(&mut v, player("a", 50, 1));
    assert_eq!(names(&v), vec!["c", "b", "a"]);
}

#[test]
fn leaderboard_merges_alts_and_drops_banned() {
    let players = vec![
        player("main", 40, 1),
        player("alt1", 22, 5),
        player("alt2", 22, 5),
        player("cheater", 10, 9),
        player("solo", 30, 2),
    ];
    let groups = vec![("main".to_string(), vec!["alt1".to_string(), "alt2".to_string()])];
    let banned = vec!["cheater".to_string()];
    let board = build_leaderboard(players, groups, &banned);
    assert_eq!(names(&board), vec!["main", "solo"]);
    assert_eq!(board[0].pb.blocks, 22);
    assert_eq!(board[0].pb.date, "d22");
}

#[test]
fn leaderboard_group_without_members_adds_nothing() {
    let players = vec![player("x", 40, 1)];
    let groups = vec![("ghost".to_string(), vec!["nobody".to_string()])];
    let board = build_leaderboard(players, groups, &Vec::new());
    assert_eq!(names(&board), vec!["x"]);
}

#[test]
fn leaderboard_keeps_group_entry_even_if_banned() {
    let players = vec![player("b", 40, 1)];
    let groups = vec![("b".to_string(), Vec::new())];
    let board = build_leaderboard(players, groups, &vec!["b".to_string()]);
    assert_eq!(names(&board), vec!["b"]);
}

#[test]
fn leaderboard_is_cut_to_size() {
    let players: Vec<Player> = (0..(LEADERBOARD_SIZE as u32 + 20)).map(|i| player(&format!("p{}", i), 1000 - i, 0)).collect();
    let board = build_leaderboard(players, Vec::new(), &Vec::new());
    assert_eq!(board.len(), LEADERBOARD_SIZE);
    assert_eq!(board[0].name, format!("p{}", LEADERBOARD_SIZE + 19));
}

#[test]
fn list_contains_finds_exact_names() {
    let list = vec!["127.0.0.1".to_string(), "10.0.0.2".to_string()];
    assert!(list_contains(&list, &"10.0.0.2".to_string()));
    assert!(!list_contains(&list, &"10.0.0.".to_string()));
    assert!(!list_contains(&Vec::new(), &"x".to_string()));
}

#[test]
fn player_duplicate_is_equal_field_by_field() {
    let mut p = player("z", 12, 3);
    p.country = Some(Country {
        name: "Norway".to_string(),
        region: "Europe".to_string(),
        sub_region: "Northern Europe".to_string(),
        intermediate_region: String::new(),
        country_code: "578".to_string(),
    });
    let q = p.duplicate();
    assert_eq!(q.name, "z");
    assert_eq!(q.pb.blocks, 12);
    assert_eq!(q.country.unwrap().name, "Norway");
}
