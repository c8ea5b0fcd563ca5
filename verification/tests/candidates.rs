use link_interceptor::candidates::{
    build_candidates, build_candidates_given, domain_matches, parse_url_parts,
    parse_url_parts_given, Discovered, UrlParts,
};
use link_interceptor::models::{
    CandidateKind, Config, CustomApp, DomainRule, ProtocolRule,
};
use link_interceptor::urls::ParsedUrl;
use link_interceptor::windows_integration::{AppUriHandlerKey, BrowserInfo, ProtocolInfo};

fn nothing_discovered() -> Discovered {
    Discovered {
        browsers: Vec::new(),
        protocol_handler: None,
        app_uri_handlers: Vec::new(),
    }
}

#[test]
fn parses_web_url() {
    let parts = parse_url_parts("https://sub.example.com/a");
    assert_eq!(parts.scheme, "https");
    assert_eq!(parts.domain.as_deref(), Some("sub.example.com"));
}

#[test]
fn parses_custom_scheme() {
    let parts = parse_url_parts("slack://channel?id=1");
    assert_eq!(parts.scheme, "slack");
    assert_eq!(parts.domain, None);
}

#[test]
fn root_domain_matches_ignore_subdomains() {
    assert!(domain_matches("example.com", "a.example.com"));
    assert!(domain_matches("api.example.com", "www.example.com"));
    assert!(domain_matches("*.example.com", "example.com"));
    assert!(!domain_matches("*.example.com", "badexample.com"));
}

#[test]
fn matching_domain_rule_adds_domain_app_candidate() {
    let config = Config {
        custom_apps: vec![CustomApp {
            name: "Example App".to_owned(),
            executable: "example.exe".to_owned(),
            args_template: "{url}".to_owned(),
        }],
        domain_rules: vec![DomainRule {
            pattern: "example.com".to_owned(),
            app_name: "Example App".to_owned(),
        }],
        ..Default::default()
    };
    let candidates = build_candidates(&config, "https://example.com", nothing_discovered());
    let app = candidates
        .iter()
        .find(|candidate| candidate.kind == CandidateKind::DomainApp)
        .unwrap();
    assert_eq!(app.name, "Example App");
}

#[test]
fn matching_protocol_rule_adds_protocol_app_candidate() {
    let config = Config {
        custom_apps: vec![CustomApp {
            name: "Mail App".to_owned(),
            executable: "mail.exe".to_owned(),
            args_template: "{url}".to_owned(),
        }],
        protocol_rules: vec![ProtocolRule {
            scheme: "mailto".to_owned(),
            app_name: "Mail App".to_owned(),
        }],
        ..Default::default()
    };
    let candidates = build_candidates(&config, "mailto:test@example.com", nothing_discovered());
    let app = candidates
        .iter()
        .find(|candidate| candidate.kind == CandidateKind::ProtocolApp)
        .unwrap();
    assert_eq!(app.name, "Mail App");
}

#[test]
fn custom_apps_are_not_added_without_matching_rule() {
    let config = Config {
        custom_apps: vec![CustomApp {
            name: "Example App".to_owned(),
            executable: "example.exe".to_owned(),
            args_template: "{url}".to_owned(),
        }],
        ..Default::default()
    };
    let candidates = build_candidates(&config, "https://example.com", nothing_discovered());
    assert!(!candidates
        .iter()
        .any(|candidate| candidate.name == "Example App"));
}

#[test]
fn url_parts_without_a_parse_fall_back_to_the_text_before_the_colon() {
    let parts = parse_url_parts_given("MAILTO:someone", None);
    assert_eq!(parts.scheme, "mailto");
    assert_eq!(parts.domain, None);
    let parts = parse_url_parts_given("no colon here", None);
    assert_eq!(parts.scheme, "");
}

#[test]
fn url_parts_of_a_parsed_url_lower_case_scheme_and_web_domain() {
    let parts = parse_url_parts_given(
        "ignored",
        Some(ParsedUrl {
            scheme: "HTTPS".to_owned(),
            domain: Some("Sub.Example.COM".to_owned()),
        }),
    );
    assert_eq!(parts.scheme, "https");
    assert_eq!(parts.domain.as_deref(), Some("sub.example.com"));
    let parts = parse_url_parts_given(
        "ignored",
        Some(ParsedUrl {
            scheme: "ftp".to_owned(),
            domain: Some("files.example.com".to_owned()),
        }),
    );
    assert_eq!(parts.domain, None);
}

fn browser(name: &str, command: Option<&str>) -> BrowserInfo {
    BrowserInfo {
        name: name.to_owned(),
        command: command.map(str::to_owned),
    }
}

#[test]
fn web_urls_rank_domain_apps_then_browsers_and_fallback_last() {
    let config = Config {
        custom_apps: vec![CustomApp {
            name: "Example App".to_owned(),
            executable: "example.exe".to_owned(),
            args_template: "{url}".to_owned(),
        }],
        domain_rules: vec![DomainRule {
            pattern: "example.com".to_owned(),
            app_name: "example app".to_owned(),
        }],
        ..Default::default()
    };
    let discovered = Discovered {
        browsers: vec![
            browser("Zebra", Some("zebra.exe")),
            browser("broken", None),
            browser("Alpha", Some("alpha.exe")),
            browser("alpha", Some("alpha.exe")),
        ],
        protocol_handler: Some(ProtocolInfo {
            name: "Https Handler".to_owned(),
            command: Some("h.exe".to_owned()),
        }),
        app_uri_handlers: Vec::new(),
    };
    let candidates = build_candidates(&config, "https://www.example.com/page", discovered);
    let names: Vec<&str> = candidates.iter().map(|c| c.name.as_str()).collect();
    assert_eq!(
        names,
        vec![
            "Example App",
            "Alpha",
            "Zebra",
            "broken",
            "Https Handler",
            "Windows default handler"
        ]
    );
    assert_eq!(candidates[0].reason, "域名规则 example.com");
    assert_eq!(candidates[4].reason, "已注册的 https 协议处理程序");
    assert!(!candidates[3].available);
    assert!(candidates[5].available);
}

#[test]
fn other_urls_rank_handler_then_protocol_apps_then_browsers() {
    let config = Config {
        custom_apps: vec![CustomApp {
            name: "Mail App".to_owned(),
            executable: "mail.exe".to_owned(),
            args_template: String::new(),
        }],
        protocol_rules: vec![ProtocolRule {
            scheme: "MAILTO:".to_owned(),
            app_name: "MAIL APP".to_owned(),
        }],
        ..Default::default()
    };
    let discovered = Discovered {
        browsers: vec![browser("Edge", Some("edge.exe"))],
        protocol_handler: Some(ProtocolInfo {
            name: "Outlook".to_owned(),
            command: Some("outlook.exe".to_owned()),
        }),
        app_uri_handlers: vec![AppUriHandlerKey {
            app_key_name: "ignored for mail".to_owned(),
            entries: vec!["*.example.com".to_owned()],
        }],
    };
    let candidates = build_candidates_given(
        &config,
        &UrlParts {
            scheme: "mailto".to_owned(),
            domain: None,
        },
        discovered,
    );
    let names: Vec<&str> = candidates.iter().map(|c| c.name.as_str()).collect();
    assert_eq!(
        names,
        vec!["Outlook", "Mail App", "Edge", "Windows default handler"]
    );
    assert_eq!(candidates[1].reason, "协议规则 MAILTO:");
}

#[test]
fn empty_scheme_gets_no_protocol_handler() {
    let discovered = Discovered {
        browsers: Vec::new(),
        protocol_handler: Some(ProtocolInfo {
            name: "Handler".to_owned(),
            command: Some("h.exe".to_owned()),
        }),
        app_uri_handlers: Vec::new(),
    };
    let candidates = build_candidates_given(
        &Config::default(),
        &UrlParts {
            scheme: String::new(),
            domain: None,
        },
        discovered,
    );
    assert_eq!(candidates.len(), 1);
    assert_eq!(candidates[0].kind, CandidateKind::ShellFallback);
}

#[test]
fn app_uri_handlers_are_offered_for_web_urls_with_a_domain() {
    let keys = vec![
        AppUriHandlerKey {
            app_key_name: "Contoso".to_owned(),
            entries: vec!["*.Contoso.com".to_owned()],
        },
        AppUriHandlerKey {
            app_key_name: "Fabrikam".to_owned(),
            entries: vec!["fabrikam.com".to_owned()],
        },
    ];
    let discovered = Discovered {
        browsers: Vec::new(),
        protocol_handler: None,
        app_uri_handlers: keys,
    };
    let candidates = build_candidates_given(
        &Config::default(),
        &UrlParts {
            scheme: "https".to_owned(),
            domain: Some("www.contoso.com".to_owned()),
        },
        discovered,
    );
    assert_eq!(candidates[0].name, "App URI handler: Contoso");
    assert_eq!(candidates[0].reason, "Windows Apps for Websites match for www.contoso.com");
    assert!(candidates[0].available);
    assert_eq!(candidates.len(), 2);
}
