use vapor::filter::{is_blank, title_matches_filter};
use vapor::paths::{
    cover_dir_candidates, direct_cover_path, is_cover_file_name, is_manifest_file_name, join_path,
    localconfig_path, steamapps_dir_candidates, userdata_dir_candidates,
};
use vapor::process::{is_process_dir_name, is_steam_comm};
use vapor::store::{search_url, steam_uri, SteamAction};

#[test]
fn join_puts_one_separator() {
    assert_eq!(join_path("/home/u", "a/b"), "/home/u/a/b");
    assert_eq!(join_path("/home/u/", "a"), "/home/u/a");
    assert_eq!(join_path("", "a"), "a");
    assert_eq!(join_path("/home/u", "/abs"), "/abs");
    assert_eq!(join_path("/home/u", ""), "/home/u/");
}

#[test]
fn steamapps_folders_native_then_flatpak() {
    assert_eq!(
        steamapps_dir_candidates("/home/u"),
        vec![
            "/home/u/.local/share/Steam/steamapps".to_string(),
            "/home/u/.var/app/com.valvesoftware.Steam/.local/share/Steam/steamapps".to_string(),
        ]
    );
}

#[test]
fn cover_folders_for_a_game() {
    assert_eq!(
        cover_dir_candidates("/home/u", "440"),
        vec![
            "/home/u/.local/share/Steam/appcache/librarycache/440".to_string(),
            "/home/u/.var/app/com.valvesoftware.Steam/.local/share/Steam/appcache/librarycache/440"
                .to_string(),
        ]
    );
    assert_eq!(
        direct_cover_path("/c/440"),
        "/c/440/library_600x900.jpg"
    );
    assert!(is_cover_file_name("library_600x900.jpg"));
    assert!(!is_cover_file_name("library_hero.jpg"));
}

#[test]
fn userdata_folders_and_config() {
    assert_eq!(
        userdata_dir_candidates("/h"),
        vec![
            "/h/.local/share/Steam/userdata".to_string(),
            "/h/.var/app/com.valvesoftware.Steam/.local/share/Steam/userdata".to_string(),
        ]
    );
    assert_eq!(localconfig_path("/h/u/1234"), "/h/u/1234/config/localconfig.vdf");
}

#[test]
fn manifest_names() {
    assert!(is_manifest_file_name("appmanifest_440.acf"));
    assert!(is_manifest_file_name("appmanifest_.acf"));
    assert!(!is_manifest_file_name("appmanifest_440.acf.bak"));
    assert!(!is_manifest_file_name("libraryfolders.vdf"));
    assert!(!is_manifest_file_name("appmanifest.acf"));
}

#[test]
fn uris_for_each_action() {
    assert_eq!(steam_uri(SteamAction::Run, "440"), "steam://run/440");
    assert_eq!(steam_uri(SteamAction::Install, "70"), "steam://install/70");
    assert_eq!(steam_uri(SteamAction::Uninstall, "620"), "steam://uninstall/620");
}

#[test]
fn search_url_encodes_spaces() {
    assert_eq!(
        search_url("half life 2"),
        "https://store.steampowered.com/api/storesearch/?term=half+life+2&l=english&cc=US"
    );
    assert_eq!(
        search_url(""),
        "https://store.steampowered.com/api/storesearch/?term=&l=english&cc=US"
    );
}

#[test]
fn search_url_percent_encodes_reserved_characters() {
    assert_eq!(
        search_url("R&D"),
        "https://store.steampowered.com/api/storesearch/?term=R%26D&l=english&cc=US"
    );
    assert_eq!(
        search_url("C++ #1 100%"),
        "https://store.steampowered.com/api/storesearch/?term=C%2B%2B+%231+100%25&l=english&cc=US"
    );
    assert_eq!(
        search_url("Émile a=b"),
        "https://store.steampowered.com/api/storesearch/?term=%C3%89mile+a%3Db&l=english&cc=US"
    );
    assert_eq!(
        search_url("safe-chars_.~"),
        "https://store.steampowered.com/api/storesearch/?term=safe-chars_.~&l=english&cc=US"
    );
}

#[test]
fn process_names() {
    assert!(is_process_dir_name("1234"));
    assert!(!is_process_dir_name("self"));
    assert!(!is_process_dir_name("12a"));
    assert!(is_process_dir_name(""));
}

#[test]
fn steam_comm() {
    assert!(is_steam_comm("steam\n"));
    assert!(is_steam_comm("  steam "));
    assert!(!is_steam_comm("steamwebhelper\n"));
    assert!(!is_steam_comm("Steam\n"));
}

#[test]
fn filter_ignores_case() {
    assert!(title_matches_filter("Portal 2", "portal"));
    assert!(title_matches_filter("Portal 2", "RTAL 2"));
    assert!(!title_matches_filter("Portal 2", "half"));
    assert!(title_matches_filter("Portal 2", ""));
    assert!(title_matches_filter("", ""));
    assert!(!title_matches_filter("", "a"));
}

#[test]
fn blank_entries() {
    assert!(is_blank(""));
    assert!(is_blank(" \t\n\u{3000}"));
    assert!(!is_blank(" 440 "));
}

#[test]
fn filter_lowercases_beyond_ascii() {
    assert!(title_matches_filter("ÉCOLE Straße", "école"));
    assert!(title_matches_filter("école", "ÉCOLE"));
    assert!(!title_matches_filter("ECOLE", "école"));
}
