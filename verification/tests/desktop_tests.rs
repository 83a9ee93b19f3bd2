use focus_core::desktop::parse_desktop_file;

const FIREFOX: &str = "[Desktop Entry]\nName=Firefox Web Browser\nExec=/usr/bin/firefox %u\nIcon=firefox\nCategories=Network;WebBrowser;\n";

#[test]
fn parses_a_matching_entry() {
    let app = parse_desktop_file(FIREFOX, "firefox").unwrap();
    assert_eq!(app.name, "Firefox Web Browser");
    assert_eq!(app.display_name, "Firefox Web Browser");
    assert_eq!(app.executable, "firefox");
    assert_eq!(app.icon, Some("firefox".to_string()));
    assert_eq!(app.categories, vec!["Network".to_string(), "WebBrowser".to_string()]);
}

#[test]
fn executable_is_the_basename_of_the_first_token() {
    let content = "Name=App\nExec=/opt/vendor/bin/tool --flag value\n";
    let app = parse_desktop_file(content, "tool").unwrap();
    assert_eq!(app.executable, "tool");
}

#[test]
fn quoted_launch_commands_are_unquoted() {
    let content = "Name=App\nExec=\"/opt/MyApp/run\" --arg\n";
    let app = parse_desktop_file(content, "app").unwrap();
    assert_eq!(app.executable, "run");
}

#[test]
fn query_can_match_through_a_category() {
    let app = parse_desktop_file(FIREFOX, "webbrowser").unwrap();
    assert_eq!(app.executable, "firefox");
}

#[test]
fn query_mismatch_yields_nothing() {
    assert!(parse_desktop_file(FIREFOX, "sprocket").is_none());
}

#[test]
fn hidden_entries_are_skipped() {
    let content = format!("{}Hidden=true\n", FIREFOX);
    assert!(parse_desktop_file(&content, "firefox").is_none());
}

#[test]
fn nodisplay_entries_are_skipped() {
    let content = format!("{}NoDisplay=true\n", FIREFOX);
    assert!(parse_desktop_file(&content, "firefox").is_none());
}

#[test]
fn entries_without_a_name_are_skipped() {
    assert!(parse_desktop_file("Exec=/usr/bin/thing\n", "thing").is_none());
}

#[test]
fn entries_without_a_launch_command_are_skipped() {
    assert!(parse_desktop_file("Name=Thing\n", "thing").is_none());
}

#[test]
fn blank_launch_command_is_skipped() {
    assert!(parse_desktop_file("Name=Thing\nExec=   \n", "thing").is_none());
}

#[test]
fn later_values_override_earlier_ones() {
    let content = "Name=Old\nName=New\nExec=new-tool\n";
    let app = parse_desktop_file(content, "new").unwrap();
    assert_eq!(app.name, "New");
    assert_eq!(app.executable, "new-tool");
}

#[test]
fn missing_icon_and_categories_default_to_empty() {
    let content = "Name=Plain\nExec=plain\n";
    let app = parse_desktop_file(content, "plain").unwrap();
    assert_eq!(app.icon, None);
    assert!(app.categories.is_empty());
}

fn named(name: &str) -> focus_core::desktop::InstalledApp {
    focus_core::desktop::InstalledApp {
        name: name.to_string(),
        display_name: name.to_string(),
        executable: name.to_lowercase(),
        icon: None,
        categories: Vec::new(),
    }
}

#[test]
fn dedup_keeps_the_first_occurrence_of_each_name() {
    let apps = vec![named("Firefox"), named("GIMP"), named("Firefox")];
    let deduped = focus_core::desktop::dedup_apps(apps);
    let names: Vec<String> = deduped.iter().map(|a| a.name.clone()).collect();
    assert_eq!(names, vec!["Firefox".to_string(), "GIMP".to_string()]);
}

#[test]
fn ranking_puts_exact_name_matches_first_then_alphabetical() {
    let apps = vec![named("Zeal"), named("Chromium"), named("Chrome"), named("Atom")];
    let ranked = focus_core::desktop::rank_apps(apps, "chrome");
    let names: Vec<String> = ranked.iter().map(|a| a.name.clone()).collect();
    assert_eq!(
        names,
        vec![
            "Chrome".to_string(),
            "Atom".to_string(),
            "Chromium".to_string(),
            "Zeal".to_string()
        ]
    );
}

#[test]
fn ranking_without_exact_match_is_alphabetical() {
    let apps = vec![named("beta"), named("alpha"), named("gamma")];
    let ranked = focus_core::desktop::rank_apps(apps, "zzz");
    let names: Vec<String> = ranked.iter().map(|a| a.name.clone()).collect();
    assert_eq!(names, vec!["alpha".to_string(), "beta".to_string(), "gamma".to_string()]);
}
