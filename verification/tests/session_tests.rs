use focus_core::notify::{block_notification, format_duration_text, session_complete_notification};
use focus_core::session::{
    parse_app_string, parse_session_filename, session_filename, sort_sessions_by_timestamp,
    Session,
};

fn session_at(ts: i64) -> Session {
    Session {
        goal: format!("goal {}", ts),
        duration: 25,
        blocked_things: Vec::new(),
        blocked_apps: Vec::new(),
        timestamp: ts,
    }
}

#[test]
fn app_string_with_three_fields() {
    let app = parse_app_string("Chrome|||chrome|||chrome.png");
    assert_eq!(app.name, "Chrome");
    assert_eq!(app.executable, "chrome");
}

#[test]
fn app_string_with_two_fields() {
    let app = parse_app_string("Slack|||slack");
    assert_eq!(app.name, "Slack");
    assert_eq!(app.executable, "slack");
}

#[test]
fn app_string_without_delimiter_defaults_the_executable() {
    let app = parse_app_string("JustAName");
    assert_eq!(app.name, "JustAName");
    assert_eq!(app.executable, "unknown");
}

#[test]
fn empty_app_string_defaults_the_executable() {
    let app = parse_app_string("");
    assert_eq!(app.name, "");
    assert_eq!(app.executable, "unknown");
}

#[test]
fn filename_carries_the_timestamp() {
    assert_eq!(session_filename(1762021023), "session_1762021023.json");
    assert_eq!(session_filename(0), "session_0.json");
    assert_eq!(session_filename(-5), "session_-5.json");
}

#[test]
fn filename_parses_back_to_its_timestamp() {
    assert_eq!(parse_session_filename("session_1762021023.json"), Some(1762021023));
    assert_eq!(parse_session_filename(&session_filename(-42)), Some(-42));
}

#[test]
fn malformed_filenames_are_rejected() {
    assert_eq!(parse_session_filename("session_.json"), None);
    assert_eq!(parse_session_filename("other.json"), None);
    assert_eq!(parse_session_filename("session_12.txt"), None);
    assert_eq!(parse_session_filename("session_12a.json"), None);
    assert_eq!(parse_session_filename("session_99999999999999999999.json"), None);
}

#[test]
fn sessions_sort_newest_first() {
    let v = vec![session_at(10), session_at(30), session_at(20)];
    let sorted = sort_sessions_by_timestamp(v);
    let stamps: Vec<i64> = sorted.iter().map(|s| s.timestamp).collect();
    assert_eq!(stamps, vec![30, 20, 10]);
}

#[test]
fn sorting_keeps_every_session() {
    let v = vec![session_at(5), session_at(5), session_at(1)];
    let sorted = sort_sessions_by_timestamp(v);
    assert_eq!(sorted.len(), 3);
    assert_eq!(sorted.iter().filter(|s| s.timestamp == 5).count(), 2);
}

#[test]
fn duration_text_spells_out_minutes_and_hours() {
    assert_eq!(format_duration_text(1), "1 minute");
    assert_eq!(format_duration_text(2), "2 minutes");
    assert_eq!(format_duration_text(0), "0 minute");
    assert_eq!(format_duration_text(60), "1 hour");
    assert_eq!(format_duration_text(61), "1 hour and 1 minute");
    assert_eq!(format_duration_text(125), "2 hours and 5 minutes");
    assert_eq!(format_duration_text(120), "2 hours");
}

#[test]
fn block_notification_names_the_app() {
    let (title, body) = block_notification("Chrome");
    assert_eq!(title, "Chrome Blocked");
    assert_eq!(body, "This app is blocked during your focus session");
}

#[test]
fn completion_notification_congratulates_with_the_duration() {
    let (title, body) = session_complete_notification(90);
    assert_eq!(title, "Focus Session Complete!");
    assert_eq!(body, "Congratulations! You completed a 1 hour and 30 minutes focus session");
}
