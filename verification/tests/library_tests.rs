use vapor::{organize_library, SteamGame};

fn game(appid: &str, name: &str) -> SteamGame {
    SteamGame { appid: appid.to_string(), name: name.to_string() }
}

fn ids(games: &[SteamGame]) -> Vec<String> {
    games.iter().map(|g| g.appid.clone()).collect()
}

fn names(games: &[SteamGame]) -> Vec<String> {
    games.iter().map(|g| g.name.clone()).collect()
}

#[test]
fn library_sorted_alphabetically_ignoring_case() {
    let out = organize_library(vec![
        game("620", "portal 2"),
        game("440", "Team Fortress 2"),
        game("400", "Portal"),
        game("70", "Half-Life"),
    ]);
    assert_eq!(names(&out), vec!["Half-Life", "Portal", "portal 2", "Team Fortress 2"]);
}

#[test]
fn library_drops_duplicate_appids_keeping_first() {
    let out = organize_library(vec![
        game("440", "Team Fortress 2"),
        game("70", "Half-Life"),
        game("440", "TF2 (flatpak copy)"),
    ]);
    assert_eq!(ids(&out), vec!["70", "440"]);
    assert_eq!(names(&out), vec!["Half-Life", "Team Fortress 2"]);
}

#[test]
fn library_equal_names_ordered_by_appid_as_strings() {
    let out = organize_library(vec![
        game("9", "Same"),
        game("10", "same"),
        game("100", "SAME"),
    ]);
    assert_eq!(ids(&out), vec!["10", "100", "9"]);
}

#[test]
fn library_of_nothing_is_empty() {
    let out = organize_library(Vec::new());
    assert!(out.is_empty());
}

#[test]
fn library_organized_twice_is_unchanged() {
    let once = organize_library(vec![
        game("3", "b"),
        game("1", "a"),
        game("3", "z"),
        game("2", "A"),
    ]);
    let twice = organize_library(once.clone());
    assert_eq!(ids(&once), ids(&twice));
    assert_eq!(names(&once), names(&twice));
    assert_eq!(ids(&once), vec!["1", "2", "3"]);
}

#[test]
fn library_keeps_every_appid_once() {
    let input = vec![
        game("5", "e"),
        game("4", "d"),
        game("5", "x"),
        game("3", "c"),
        game("4", "y"),
    ];
    let out = organize_library(input);
    let mut got = ids(&out);
    got.sort();
    assert_eq!(got, vec!["3", "4", "5"]);
}

#[test]
fn library_orders_by_code_point_after_lowercasing() {
    let out = organize_library(vec![game("1", "Zebra"), game("2", "apple"), game("3", "Émile")]);
    assert_eq!(names(&out), vec!["apple", "Zebra", "Émile"]);
}
