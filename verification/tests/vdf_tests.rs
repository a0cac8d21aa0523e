use vapor::{extract_vdf_value, parse_stats_from_vdf, GameStats};

const CONFIG: &str = "\"UserLocalConfigStore\"\n{\n\t\"Software\"\n\t{\n\t\t\"Valve\"\n\t\t{\n\t\t\t\"Steam\"\n\t\t\t{\n\t\t\t\t\"apps\"\n\t\t\t\t{\n\t\t\t\t\t\"440\"\n\t\t\t\t\t{\n\t\t\t\t\t\t\"LastPlayed\"\t\t\"1700000000\"\n\t\t\t\t\t\t\"Playtime\"\t\t\"125\"\n\t\t\t\t\t}\n\t\t\t\t\t\"570\"\n\t\t\t\t\t{\n\t\t\t\t\t\t\"Playtime\"\t\t\"abc\"\n\t\t\t\t\t}\n\t\t\t\t}\n\t\t\t}\n\t\t}\n\t}\n}\n";

#[test]
fn extract_value_of_key_value_line() {
    assert_eq!(extract_vdf_value("\"LastPlayed\"\t\t\"1700000000\""), Some("1700000000".to_string()));
    assert_eq!(extract_vdf_value("\"a\" \"b\""), Some("b".to_string()));
}

#[test]
fn extract_value_needs_three_quotes() {
    assert_eq!(extract_vdf_value("\"only\""), None);
    assert_eq!(extract_vdf_value(""), None);
    assert_eq!(extract_vdf_value("no quotes at all"), None);
}

#[test]
fn extract_value_runs_to_end_without_fourth_quote() {
    assert_eq!(extract_vdf_value("\"a\" \"b"), Some("b".to_string()));
    assert_eq!(extract_vdf_value("\"a\" \""), Some("".to_string()));
}

#[test]
fn extract_value_takes_fourth_field() {
    assert_eq!(extract_vdf_value("a\"b\"c\"d\"e"), Some("d".to_string()));
    assert_eq!(extract_vdf_value("\"k\"\"\""), Some("".to_string()));
}

#[test]
fn stats_of_a_game_with_both_fields() {
    assert_eq!(
        parse_stats_from_vdf(CONFIG, "440"),
        Some(GameStats { playtime_mins: 125, last_played_timestamp: 1700000000 })
    );
}

#[test]
fn stats_with_unreadable_number_are_zero() {
    assert_eq!(
        parse_stats_from_vdf(CONFIG, "570"),
        Some(GameStats { playtime_mins: 0, last_played_timestamp: 0 })
    );
}

#[test]
fn stats_of_an_absent_game_are_none() {
    assert_eq!(parse_stats_from_vdf(CONFIG, "730"), None);
    assert_eq!(parse_stats_from_vdf("", "440"), None);
}

#[test]
fn stats_key_must_be_followed_by_brace() {
    let text = "\"440\"\n\"other\"\n{\n\"Playtime\" \"9\"\n}\n";
    assert_eq!(parse_stats_from_vdf(text, "440"), None);
    let text = "\"440\"\n\"440\"\n{\n\"Playtime\" \"9\"\n}\n";
    assert_eq!(parse_stats_from_vdf(text, "440"), None);
    let text = "\"440\"";
    assert_eq!(parse_stats_from_vdf(text, "440"), None);
}

#[test]
fn stats_first_block_wins() {
    let text = "\"7\"\n{\n\"Playtime\" \"1\"\n}\n\"7\"\n{\n\"Playtime\" \"2\"\n}\n";
    assert_eq!(
        parse_stats_from_vdf(text, "7"),
        Some(GameStats { playtime_mins: 1, last_played_timestamp: 0 })
    );
}

#[test]
fn stats_later_line_overrides() {
    let text = "\"7\"\n{\n\"Playtime\" \"1\"\n\"Playtime\" \"2\"\n\"Playtime\" \"x\"\n}\n";
    assert_eq!(
        parse_stats_from_vdf(text, "7"),
        Some(GameStats { playtime_mins: 0, last_played_timestamp: 0 })
    );
    let text = "\"7\"\n{\n\"Playtime\" \"1\"\n\"Playtime\" \"2\"\n}\n";
    assert_eq!(
        parse_stats_from_vdf(text, "7"),
        Some(GameStats { playtime_mins: 2, last_played_timestamp: 0 })
    );
}

#[test]
fn stats_block_runs_to_end_of_text() {
    let text = "\"7\"\n{\n\"LastPlayed\" \"99\"";
    assert_eq!(
        parse_stats_from_vdf(text, "7"),
        Some(GameStats { playtime_mins: 0, last_played_timestamp: 99 })
    );
}

#[test]
fn stats_lines_after_closing_brace_are_ignored() {
    let text = "\"7\"\n{\n}\n\"Playtime\" \"5\"\n";
    assert_eq!(
        parse_stats_from_vdf(text, "7"),
        Some(GameStats { playtime_mins: 0, last_played_timestamp: 0 })
    );
}

#[test]
fn stats_with_crlf_line_endings() {
    let text = "\"7\"\r\n{\r\n\"Playtime\"\t\"30\"\r\n}\r\n";
    assert_eq!(
        parse_stats_from_vdf(text, "7"),
        Some(GameStats { playtime_mins: 30, last_played_timestamp: 0 })
    );
}

#[test]
fn stats_numbers_follow_integer_parsing() {
    let text = "\"7\"\n{\n\"Playtime\" \"4294967295\"\n\"LastPlayed\" \"+12\"\n}\n";
    assert_eq!(
        parse_stats_from_vdf(text, "7"),
        Some(GameStats { playtime_mins: 4294967295, last_played_timestamp: 12 })
    );
    let text = "\"7\"\n{\n\"Playtime\" \"4294967296\"\n\"LastPlayed\" \"-12\"\n}\n";
    assert_eq!(
        parse_stats_from_vdf(text, "7"),
        Some(GameStats { playtime_mins: 0, last_played_timestamp: 0 })
    );
    let text = "\"7\"\n{\n\"LastPlayed\" \"18446744073709551615\"\n\"Playtime\" \"+\"\n}\n";
    assert_eq!(
        parse_stats_from_vdf(text, "7"),
        Some(GameStats { playtime_mins: 0, last_played_timestamp: 18446744073709551615 })
    );
    let text = "\"7\"\n{\n\"LastPlayed\" \"18446744073709551616\"\n\"Playtime\" \" 5\"\n}\n";
    assert_eq!(
        parse_stats_from_vdf(text, "7"),
        Some(GameStats { playtime_mins: 0, last_played_timestamp: 0 })
    );
}

#[test]
fn stats_key_line_may_carry_whitespace() {
    let text = "   \"7\"  \n\t{\t\n\"Playtime\" \"3\"\n";
    assert_eq!(
        parse_stats_from_vdf(text, "7"),
        Some(GameStats { playtime_mins: 3, last_played_timestamp: 0 })
    );
}

#[test]
fn stats_prefix_lines_need_the_value_field() {
    let text = "\"7\"\n{\n\"Playtime\"\n\"PlaytimeForever\" \"8\"\n}\n";
    assert_eq!(
        parse_stats_from_vdf(text, "7"),
        Some(GameStats { playtime_mins: 0, last_played_timestamp: 0 })
    );
}

#[test]
fn stats_key_quoted_prefix_is_matched_exactly() {
    let text = "\"Playtime2\" \"8\"\n";
    let block = format!("\"7\"\n{{\n{}}}\n", text);
    assert_eq!(
        parse_stats_from_vdf(&block, "7"),
        Some(GameStats { playtime_mins: 0, last_played_timestamp: 0 })
    );
}

#[test]
fn stats_unchanged_by_unrelated_leading_lines() {
    let prefix = "\"8\"\n{\n\"Playtime\" \"4\"\n}\n\"other\"\n";
    let text = format!("{}\n{}", prefix, CONFIG);
    assert_eq!(parse_stats_from_vdf(&text, "440"), parse_stats_from_vdf(CONFIG, "440"));
}

#[test]
fn stats_text_without_final_newline_or_with_cr_only_at_end() {
    let text = "\"7\"\n{\n\"Playtime\" \"6\"\r";
    assert_eq!(
        parse_stats_from_vdf(text, "7"),
        Some(GameStats { playtime_mins: 6, last_played_timestamp: 0 })
    );
}
