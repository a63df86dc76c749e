use zlack::security::{
    accept_external_url, accept_slack_url, external_url_target, parse_external_url, parse_slack_url,
    OpenExternalUrlError, UrlParts,
};

#[test]
fn accepts_official_slack_https_urls() {
    let app = parse_slack_url("https://app.slack.com/client/T123");
    let workspace = parse_slack_url("https://example.slack.com/client");

    assert_eq!(
        app.and_then(|url| url.host_str().map(str::to_owned)),
        Some("app.slack.com".to_owned())
    );
    assert_eq!(
        workspace.and_then(|url| url.host_str().map(str::to_owned)),
        Some("example.slack.com".to_owned())
    );
}

#[test]
fn rejects_lookalike_and_non_https_slack_urls() {
    assert!(parse_slack_url("https://evilslack.com/client").is_none());
    assert!(parse_slack_url("http://app.slack.com/client/T123").is_none());
    assert!(parse_slack_url("https://slack.com.evil.example/client").is_none());
}

#[test]
fn external_urls_allow_only_http_and_https() {
    assert!(parse_external_url("https://example.com/docs").is_some());
    assert!(parse_external_url("http://example.com/docs").is_some());
    assert!(parse_external_url("file:///C:/Windows/System32/calc.exe").is_none());
    assert!(parse_external_url("custom-protocol:payload").is_none());
    assert!(parse_external_url("https://user@example.com/docs").is_none());
}

#[test]
fn slack_root_is_accepted_and_credentials_are_not() {
    let root = parse_slack_url("https://slack.com/").expect("slack.com itself");
    assert_eq!(root.scheme(), "https");
    assert_eq!(root.username(), "");
    assert_eq!(root.password(), None);
    assert!(parse_slack_url("https://u:p@app.slack.com/").is_none());
    assert!(parse_slack_url("not a url").is_none());
    assert!(parse_external_url("https://:secret@example.com/").is_none());
}

#[test]
fn every_slack_url_is_also_an_external_url() {
    for input in ["https://app.slack.com/client/T1", "https://slack.com", "https://a.b.slack.com/x"] {
        assert!(parse_slack_url(input).is_some());
        assert!(parse_external_url(input).is_some());
    }
}

#[test]
fn external_target_is_the_serialized_url() {
    assert_eq!(
        external_url_target("HTTPS://Example.COM").unwrap(),
        "https://example.com/"
    );
    assert!(matches!(
        external_url_target("javascript:alert(1)"),
        Err(OpenExternalUrlError::InvalidUrl)
    ));
    let parsed = parse_external_url("http://example.com/a b").unwrap();
    assert_eq!(parsed.as_str(), "http://example.com/a%20b");
}

fn parts(scheme: &str, host: Option<&str>, user: &str, password: Option<&str>) -> UrlParts {
    UrlParts::from_parts(
        scheme.to_string(),
        host.map(str::to_string),
        user.to_string(),
        password.map(str::to_string),
        format!("{scheme}://example"),
    )
}

#[test]
fn policies_decide_on_the_parts_of_a_url() {
    assert!(accept_slack_url(parts("https", Some("slack.com"), "", None)).is_some());
    assert!(accept_slack_url(parts("https", Some("a.slack.com"), "", None)).is_some());
    assert!(accept_slack_url(parts("https", Some("evilslack.com"), "", None)).is_none());
    assert!(accept_slack_url(parts("https", None, "", None)).is_none());
    assert!(accept_slack_url(parts("https", Some("slack.com"), "", Some("pw"))).is_none());
    assert!(accept_slack_url(parts("http", Some("slack.com"), "", None)).is_none());
    assert!(accept_external_url(parts("http", None, "", None)).is_some());
    assert!(accept_external_url(parts("ftp", Some("example.com"), "", None)).is_none());
    assert!(accept_external_url(parts("https", Some("example.com"), "me", None)).is_none());
}
