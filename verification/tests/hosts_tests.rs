use focus_core::hosts::{block_sites, unblock_sites, HostsDocument};

const BASE: &str = "127.0.0.1 localhost\n::1 localhost\n\n# a comment\n192.168.1.4 printer";

fn base_doc() -> HostsDocument {
    HostsDocument::parse(BASE)
}

#[test]
fn parse_render_round_trip() {
    assert_eq!(base_doc().render(), BASE);
}

#[test]
fn parse_handles_crlf_and_trailing_newline() {
    let doc = HostsDocument::parse("a\r\nb\n");
    assert_eq!(doc.render(), "a\nb");
    assert_eq!(doc.len(), 2);
}

#[test]
fn block_appends_marker_and_four_lines_per_domain() {
    let doc = base_doc();
    let sites = vec!["facebook.com".to_string()];
    let blocked = block_sites(&doc, &sites);
    let expected = format!(
        "{}\n# Focus app blocked sites\n0.0.0.0 facebook.com\n::1 facebook.com\n0.0.0.0 www.facebook.com\n::1 www.facebook.com",
        BASE
    );
    assert_eq!(blocked.render(), expected);
}

#[test]
fn block_normalizes_and_deduplicates_domains() {
    let doc = base_doc();
    let sites = vec![
        "https://www.Twitter.com/feed".to_string(),
        "twitter.com".to_string(),
        "TWITTER.COM/".to_string(),
    ];
    let blocked = block_sites(&doc, &sites);
    let text = blocked.render();
    let route_lines = text.lines().filter(|l| l.contains("twitter.com")).count();
    assert_eq!(route_lines, 4);
}

#[test]
fn block_skips_unparseable_sites() {
    let doc = base_doc();
    let sites = vec!["".to_string(), "   ".to_string(), "ok.net".to_string()];
    let blocked = block_sites(&doc, &sites);
    let text = blocked.render();
    assert!(text.contains("0.0.0.0 ok.net"));
    let marker_count = text.lines().filter(|l| l.contains("# Focus app blocked sites")).count();
    assert_eq!(marker_count, 1);
}

#[test]
fn block_with_empty_site_list_changes_nothing() {
    let doc = base_doc();
    let blocked = block_sites(&doc, &Vec::new());
    assert_eq!(blocked.render(), BASE);
}

#[test]
fn blocking_twice_equals_blocking_once() {
    let doc = base_doc();
    let sites = vec!["facebook.com".to_string(), "youtube.com".to_string()];
    let once = block_sites(&doc, &sites);
    let twice = block_sites(&once, &sites);
    assert_eq!(twice.render(), once.render());
}

#[test]
fn blocking_twice_never_doubles_the_section() {
    let doc = base_doc();
    let sites = vec!["netflix.com".to_string()];
    let twice = block_sites(&block_sites(&doc, &sites), &sites);
    let text = twice.render();
    let markers = text.lines().filter(|l| l.contains("# Focus app blocked sites")).count();
    let routes = text.lines().filter(|l| l.contains("netflix.com")).count();
    assert_eq!(markers, 1);
    assert_eq!(routes, 4);
}

#[test]
fn block_then_unblock_restores_document() {
    let doc = base_doc();
    let sites = vec!["facebook.com".to_string(), "https://www.reddit.com/r/all".to_string()];
    let restored = unblock_sites(&block_sites(&doc, &sites));
    assert_eq!(restored.render(), BASE);
}

#[test]
fn unblock_without_focus_block_is_noop() {
    let doc = base_doc();
    let restored = unblock_sites(&doc);
    assert_eq!(restored.render(), BASE);
}

#[test]
fn unblock_twice_in_a_row_converges() {
    let doc = base_doc();
    let sites = vec!["tiktok.com".to_string()];
    let blocked = block_sites(&doc, &sites);
    let once = unblock_sites(&blocked);
    let twice = unblock_sites(&once);
    assert_eq!(twice.render(), once.render());
}

#[test]
fn unblock_drops_stray_annotated_lines() {
    let doc = HostsDocument::parse("127.0.0.1 localhost\n# Focus leftover note\n1.2.3.4 host");
    let cleaned = unblock_sites(&doc);
    assert_eq!(cleaned.render(), "127.0.0.1 localhost\n1.2.3.4 host");
}

#[test]
fn unblock_tolerates_legacy_block_without_sentinel() {
    let text = "127.0.0.1 localhost\n# Focus app blocked sites\n0.0.0.0 facebook.com\n::1 facebook.com\n192.168.0.9 nas";
    let cleaned = unblock_sites(&HostsDocument::parse(text));
    assert_eq!(cleaned.render(), "127.0.0.1 localhost\n192.168.0.9 nas");
}

#[test]
fn block_removes_matching_null_route_lines_before_appending() {
    let text = "127.0.0.1 localhost\n0.0.0.0 facebook.com";
    let blocked = block_sites(&HostsDocument::parse(text), &vec!["facebook.com".to_string()]);
    let rendered = blocked.render();
    let routes = rendered.lines().filter(|l| l.trim() == "0.0.0.0 facebook.com").count();
    assert_eq!(routes, 1);
    assert!(rendered.starts_with("127.0.0.1 localhost\n# Focus app blocked sites\n"));
}

#[test]
fn unblock_consumes_blanks_and_comments_inside_the_section() {
    let text = "127.0.0.1 localhost\n# Focus app blocked sites\n0.0.0.0 facebook.com\n\n# stray note\n::1 facebook.com\n192.168.0.9 nas";
    let cleaned = unblock_sites(&HostsDocument::parse(text));
    assert_eq!(cleaned.render(), "127.0.0.1 localhost\n192.168.0.9 nas");
}

#[test]
fn unblock_section_ends_at_the_first_ordinary_line() {
    let text = "# Focus app blocked sites\n0.0.0.0 tiktok.com\n10.0.0.2 gateway\n\n# kept comment";
    let cleaned = unblock_sites(&HostsDocument::parse(text));
    assert_eq!(cleaned.render(), "10.0.0.2 gateway\n\n# kept comment");
}
