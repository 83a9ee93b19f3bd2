use focus_core::domain::extract_domain;

#[test]
fn normalizes_full_url_with_www_and_path() {
    assert_eq!(extract_domain("https://www.Example.com/path?x=1"), "example.com");
}

#[test]
fn normalizes_bare_domain() {
    assert_eq!(extract_domain("example.com"), "example.com");
}

#[test]
fn normalizes_uppercase_scheme_and_port() {
    assert_eq!(extract_domain("HTTP://EXAMPLE.COM:8080/"), "example.com");
}

#[test]
fn strips_http_scheme() {
    assert_eq!(extract_domain("http://foo.org/bar/baz"), "foo.org");
}

#[test]
fn trims_surrounding_whitespace() {
    assert_eq!(extract_domain("  www.Test.com  "), "test.com");
}

#[test]
fn empty_input_yields_empty_sentinel() {
    assert_eq!(extract_domain(""), "");
}

#[test]
fn scheme_only_input_yields_empty_sentinel() {
    assert_eq!(extract_domain("https://"), "");
}

#[test]
fn keeps_subdomains_other_than_www() {
    assert_eq!(extract_domain("https://mail.google.com/inbox"), "mail.google.com");
}

#[test]
fn strips_port_without_path() {
    assert_eq!(extract_domain("reddit.com:443"), "reddit.com");
}
