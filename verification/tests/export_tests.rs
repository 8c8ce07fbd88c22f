use lap_leaderboard::export::{escape_json, u64_to_string, ExportDocs};
use lap_leaderboard::store::{ExportError, Leaderboard};

#[test]
fn export_without_track_name_fails() {
    let lb = Leaderboard::new();
    assert!(matches!(lb.export_lap_times(), Err(ExportError::NoTrackNameSet)));
    assert!(matches!(lb.render_export("2024-01-02"), Err(ExportError::NoTrackNameSet)));
}

#[test]
fn export_after_set_track_name_succeeds() {
    let mut lb = Leaderboard::new();
    lb.set_track_name("Silverstone GP".to_string());
    lb.add_lap_time("Max".to_string(), "RedBull".to_string(), "1:30.500".to_string());
    lb.add_lap_time("Lando".to_string(), "McLaren".to_string(), "1:29.999".to_string());

    let docs: ExportDocs = lb.export_lap_times().unwrap();
    assert_eq!(docs.csv_name, "exports/Silverstone_GP_lap_times.csv");
    assert_eq!(docs.json_name, "exports/Silverstone_GP_lap_times.json");

    let lines: Vec<&str> = docs.csv.lines().collect();
    assert_eq!(lines[0], "Position,Driver,Team,Time,Fastest");
    // fastest lap first
    assert_eq!(lines[1], "1,Lando,McLaren,1:29.999,Yes");
    assert_eq!(lines[2], "2,Max,RedBull,1:30.500,No");
    assert_eq!(lines.len(), 3);
}

#[test]
fn rendered_documents_are_exact() {
    let mut lb = Leaderboard::new();
    lb.set_track_name("Monza".to_string());
    lb.add_lap_time("Max".to_string(), "RedBull".to_string(), "1:30.500".to_string());

    let docs = lb.render_export("2024-01-02").unwrap();
    assert_eq!(docs.csv, "Position,Driver,Team,Time,Fastest\n1,Max,RedBull,1:30.500,Yes\n");
    let mut expected = String::new();
    expected.push_str("{\"track\":\"Monza\",\"date\":\"2024-01-02\",\"fastest_laps\":[");
    expected.push_str("{\"position\":1,\"driver\":\"Max\",\"team\":\"RedBull\",");
    expected.push_str("\"time\":\"1:30.500\",\"is_fastest\":true}]}");
    assert_eq!(docs.json, expected);
}

#[test]
fn unparsable_times_sort_last() {
    let mut lb = Leaderboard::new();
    lb.set_track_name("Spa".to_string());
    lb.add_lap_time("A".to_string(), "T1".to_string(), "junk".to_string());
    lb.add_lap_time("B".to_string(), "T2".to_string(), "2:00.000".to_string());

    let docs = lb.render_export("2024-06-01").unwrap();
    let lines: Vec<&str> = docs.csv.lines().collect();
    assert_eq!(lines[1], "1,B,T2,2:00.000,Yes");
    assert_eq!(lines[2], "2,A,T1,junk,No");
}

#[test]
fn export_of_empty_board_has_header_only() {
    let mut lb = Leaderboard::new();
    lb.set_track_name("Imola".to_string());
    let docs = lb.render_export("2024-06-01").unwrap();
    assert_eq!(docs.csv, "Position,Driver,Team,Time,Fastest\n");
    assert_eq!(
        docs.json,
        "{\"track\":\"Imola\",\"date\":\"2024-06-01\",\"fastest_laps\":[]}"
    );
}

#[test]
fn exported_date_comes_from_the_clock() {
    let mut lb = Leaderboard::new();
    lb.set_track_name("Spa".to_string());
    let docs = lb.export_lap_times().unwrap();
    // the date is whatever the clock gave; the frame around it is fixed
    assert!(docs.json.starts_with("{\"track\":\"Spa\",\"date\":\""));
    assert!(docs.json.ends_with("\"fastest_laps\":[]}"));
}

#[test]
fn track_names_with_spaces_become_underscores() {
    let mut lb = Leaderboard::new();
    lb.set_track_name("Circuit de Spa Francorchamps".to_string());
    let docs = lb.render_export("2024-06-01").unwrap();
    assert_eq!(docs.csv_name, "exports/Circuit_de_Spa_Francorchamps_lap_times.csv");
}

#[test]
fn numbers_render_in_decimal() {
    assert_eq!(u64_to_string(0), "0");
    assert_eq!(u64_to_string(7), "7");
    assert_eq!(u64_to_string(10), "10");
    assert_eq!(u64_to_string(1234567890), "1234567890");
}

#[test]
fn json_strings_are_escaped() {
    assert_eq!(escape_json("plain"), "plain");
    assert_eq!(escape_json("a\"b"), "a\\\"b");
    assert_eq!(escape_json("a\\b"), "a\\\\b");
    assert_eq!(escape_json("a\nb\tc\rd"), "a\\nb\\tc\\rd");
    assert_eq!(escape_json("\u{1}"), "\\u0001");
    assert_eq!(escape_json("\u{1f}"), "\\u001f");
}

#[test]
fn escaped_names_reach_the_json_document() {
    let mut lb = Leaderboard::new();
    lb.set_track_name("Spa".to_string());
    lb.add_lap_time("Max \"Super\"".to_string(), "Red\\Bull".to_string(), "1:30.000".to_string());
    let docs = lb.render_export("2024-06-01").unwrap();
    assert!(docs.json.contains("\"driver\":\"Max \\\"Super\\\"\""));
    assert!(docs.json.contains("\"team\":\"Red\\\\Bull\""));
}
