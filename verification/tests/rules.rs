use link_interceptor::rules::{
    normalize_protocol_scheme, normalize_root_domain, normalize_root_domain_given,
};
use link_interceptor::urls::ParsedUrl;

#[test]
fn normalizes_root_domain() {
    assert_eq!(
        normalize_root_domain("https://api.example.com/path").as_deref(),
        Some("example.com")
    );
    assert_eq!(
        normalize_root_domain("*.Sub.Example.COM.").as_deref(),
        Some("example.com")
    );
    assert_eq!(normalize_root_domain("localhost"), None);
}

#[test]
fn normalizes_protocol_scheme() {
    assert_eq!(
        normalize_protocol_scheme("MAILTO:").as_deref(),
        Some("mailto")
    );
    assert_eq!(
        normalize_protocol_scheme("web+demo").as_deref(),
        Some("web+demo")
    );
    assert_eq!(normalize_protocol_scheme("bad scheme"), None);
}

#[test]
fn root_domain_of_blank_input_is_none() {
    assert_eq!(normalize_root_domain(""), None);
    assert_eq!(normalize_root_domain("   \t "), None);
}

#[test]
fn root_domain_drops_port_and_path_of_bare_hosts() {
    assert_eq!(
        normalize_root_domain("  WWW.Example.org:8080/x  ").as_deref(),
        Some("example.org")
    );
    assert_eq!(normalize_root_domain("a..b").as_deref(), Some("a.b"));
    assert_eq!(normalize_root_domain(".b"), None);
}

#[test]
fn root_domain_given_uses_the_parsed_domain() {
    let parsed = Some(ParsedUrl {
        scheme: "https".to_owned(),
        domain: Some("mail.example.net".to_owned()),
    });
    assert_eq!(
        normalize_root_domain_given("https://whatever.test", &parsed).as_deref(),
        Some("example.net")
    );
    assert_eq!(
        normalize_root_domain_given("sub.example.io/page", &None).as_deref(),
        Some("example.io")
    );
}

#[test]
fn protocol_scheme_edge_cases() {
    assert_eq!(normalize_protocol_scheme("  Slack::  ").as_deref(), Some("slack"));
    assert_eq!(normalize_protocol_scheme(":"), None);
    assert_eq!(normalize_protocol_scheme(""), None);
    assert_eq!(normalize_protocol_scheme("ms-settings").as_deref(), Some("ms-settings"));
    assert_eq!(normalize_protocol_scheme("a/b"), None);
}

#[test]
fn normalized_scheme_normalizes_to_itself() {
    for input in ["MAILTO:", " Web+Demo ", "x.y-z"] {
        let once = normalize_protocol_scheme(input).unwrap();
        assert_eq!(normalize_protocol_scheme(&once).as_deref(), Some(once.as_str()));
    }
}
