use link_interceptor::models::{CandidateKind, OpenCandidate};
use link_interceptor::windows_integration::{
    app_uri_handler_candidate, app_uri_handlers_match_domain, browser_info,
    discover_app_uri_handlers, discover_browsers, discover_protocol_handler, domain_pattern_matches,
    launch_plan, protocol_info, push_unique_browser, reg_sz_text, registration_state,
    registration_values, registry_error, shell_fallback_candidate, split_command_line, user_choice_path,
    AppUriHandlerKey, BrowserInfo, IntegrationError, LaunchPlan, ProtocolClassEntry, RegistrationState,
    StartMenuEntry,
};

#[test]
fn command_line_parser_handles_quoted_exe() {
    let parts = split_command_line(r#""C:\Program Files\App\app.exe" "%1" --flag"#);
    assert_eq!(parts[0], r"C:\Program Files\App\app.exe");
    assert_eq!(parts[1], "%1");
    assert_eq!(parts[2], "--flag");
}

#[test]
fn command_line_parser_handles_escaped_quotes_and_blank_runs() {
    let parts = split_command_line("  a\\\"b   \"c d\"e  \"\" ");
    assert_eq!(parts, vec!["a\"b".to_owned(), "c de".to_owned()]);
    assert!(split_command_line("   ").is_empty());
}

#[test]
fn registration_state_reads_registry_values() {
    let caps = Some(r"Software\LinkInterceptor\Capabilities".to_owned());
    assert_eq!(registration_state(None, None, None), RegistrationState::NotRegistered);
    assert_eq!(
        registration_state(Some("elsewhere".to_owned()), None, None),
        RegistrationState::NotRegistered
    );
    assert_eq!(registration_state(caps.clone(), None, None), RegistrationState::Registered);
    assert_eq!(
        registration_state(caps.clone(), Some("ChromeHTML".to_owned()), None),
        RegistrationState::Registered
    );
    assert_eq!(
        registration_state(caps, None, Some("LinkInterceptorURL".to_owned())),
        RegistrationState::PossibleDefault
    );
}

#[test]
fn registration_writes_the_capabilities_and_command() {
    let values = registration_values(r"C:\Tools\li.exe");
    assert_eq!(values.len(), 8);
    assert_eq!(values[0].key, r"Software\LinkInterceptor\Capabilities");
    assert_eq!(values[0].name, "ApplicationName");
    assert_eq!(values[0].data, "Link Interceptor");
    assert_eq!(values[2].key, r"Software\LinkInterceptor\Capabilities\URLAssociations");
    assert_eq!(values[4].key, r"Software\RegisteredApplications");
    assert_eq!(values[4].name, "LinkInterceptor");
    assert_eq!(values[7].key, r"Software\Classes\LinkInterceptorURL\shell\open\command");
    assert_eq!(values[7].name, "");
    assert_eq!(values[7].data, r#""C:\Tools\li.exe" "%1""#);
}

#[test]
fn user_choice_path_names_the_scheme() {
    assert_eq!(
        user_choice_path("https"),
        r"Software\Microsoft\Windows\Shell\Associations\UrlAssociations\https\UserChoice"
    );
}

#[test]
fn browsers_are_unique_by_name_ignoring_case() {
    let mut browsers: Vec<BrowserInfo> = Vec::new();
    push_unique_browser(&mut browsers, browser_info("FIREFOX.EXE".to_owned(), Some("Firefox".to_owned()), None));
    push_unique_browser(&mut browsers, browser_info("other".to_owned(), Some("firefox".to_owned()), Some("x".to_owned())));
    push_unique_browser(&mut browsers, browser_info("Edge".to_owned(), Some("   ".to_owned()), None));
    assert_eq!(browsers.len(), 2);
    assert_eq!(browsers[0].name, "Firefox");
    assert_eq!(browsers[1].name, "Edge");
}

#[test]
fn protocol_info_falls_back_to_the_scheme() {
    assert_eq!(protocol_info("slack", None, None).name, "slack handler");
    assert_eq!(protocol_info("slack", Some("Slack".to_owned()), None).name, "Slack");
}

#[test]
fn domain_patterns_match_exact_and_wildcard() {
    assert!(domain_pattern_matches("  Example.COM ", "example.com"));
    assert!(domain_pattern_matches("*.example.com", "example.com"));
    assert!(domain_pattern_matches("*.example.com", "www.example.com"));
    assert!(!domain_pattern_matches("*.example.com", "badexample.com"));
    assert!(!domain_pattern_matches("example.com", "www.example.com"));
    let entries = vec!["x.org".to_owned(), "*.contoso.com".to_owned()];
    assert!(app_uri_handlers_match_domain(&entries, "mail.contoso.com"));
    assert!(!app_uri_handlers_match_domain(&entries, "contoso.org"));
}

#[test]
fn app_uri_handler_candidates_are_available() {
    let c = app_uri_handler_candidate("Contoso.App", "contoso.com");
    assert_eq!(c.name, "App URI handler: Contoso.App");
    assert_eq!(c.reason, "Windows Apps for Websites match for contoso.com");
    assert_eq!(c.kind, CandidateKind::DomainApp);
    assert_eq!(c.command, None);
    assert!(c.available);
}

#[test]
fn reg_sz_bytes_decode_up_to_the_terminator() {
    let bytes = [b'a', 0, b'.', 0, b'b', 0, 0, 0, b'z', 0];
    assert_eq!(reg_sz_text(&bytes).as_deref(), Some("a.b"));
    assert_eq!(reg_sz_text(&[b'q', 0, 7]).as_deref(), Some("q"));
    assert_eq!(reg_sz_text(&[0x00, 0xD8]), None);
}

#[test]
fn shell_fallback_is_always_available() {
    let c = shell_fallback_candidate();
    assert_eq!(c.name, "Windows default handler");
    assert!(c.available);
    assert_eq!(c.kind, CandidateKind::ShellFallback);
}

fn candidate(kind: CandidateKind, command: Option<&str>, args: &str) -> OpenCandidate {
    OpenCandidate::new(
        "c".to_owned(),
        kind,
        command.map(str::to_owned),
        args.to_owned(),
        String::new(),
    )
}

#[test]
fn launch_plans_fill_in_the_url() {
    let url = "https://example.com/?q=1";
    let browser = candidate(CandidateKind::Browser, Some(r#""C:\B\b.exe" --new "%1""#), "  ");
    match launch_plan(&browser, url) {
        LaunchPlan::Spawn { executable, args } => {
            assert_eq!(executable, r"C:\B\b.exe");
            assert_eq!(args, vec!["--new".to_owned(), url.to_owned()]);
        }
        LaunchPlan::OpenWithShell => panic!("expected a process"),
    }
    let app = candidate(CandidateKind::DomainApp, Some("app.exe --ignored"), "--open={url} %L");
    match launch_plan(&app, url) {
        LaunchPlan::Spawn { executable, args } => {
            assert_eq!(executable, "app.exe");
            assert_eq!(args, vec![format!("--open={url}"), url.to_owned()]);
        }
        LaunchPlan::OpenWithShell => panic!("expected a process"),
    }
    let bare = candidate(CandidateKind::ProtocolApp, Some("bare.exe"), "");
    match launch_plan(&bare, url) {
        LaunchPlan::Spawn { args, .. } => assert_eq!(args, vec![url.to_owned()]),
        LaunchPlan::OpenWithShell => panic!("expected a process"),
    }
}

#[test]
fn launch_plans_use_the_shell_without_a_command() {
    let url = "mailto:a@b";
    assert!(matches!(
        launch_plan(&shell_fallback_candidate(), url),
        LaunchPlan::OpenWithShell
    ));
    assert!(matches!(
        launch_plan(&candidate(CandidateKind::Browser, None, "%1"), url),
        LaunchPlan::OpenWithShell
    ));
    assert!(matches!(
        launch_plan(&candidate(CandidateKind::Browser, Some("\"\""), "%1"), url),
        LaunchPlan::OpenWithShell
    ));
}

#[test]
fn discovered_browsers_are_named_and_unique() {
    let entries = vec![
        StartMenuEntry {
            key_name: "Google Chrome".to_owned(),
            default_value: Some("Google Chrome".to_owned()),
            command: Some("chrome.exe".to_owned()),
        },
        StartMenuEntry {
            key_name: "FIREFOX.EXE".to_owned(),
            default_value: None,
            command: None,
        },
        StartMenuEntry {
            key_name: "Chrome (machine)".to_owned(),
            default_value: Some("google chrome".to_owned()),
            command: Some("other.exe".to_owned()),
        },
    ];
    let browsers = discover_browsers(entries);
    assert_eq!(browsers.len(), 2);
    assert_eq!(browsers[0].command.as_deref(), Some("chrome.exe"));
    assert_eq!(browsers[1].name, "FIREFOX.EXE");
}

#[test]
fn discovered_protocol_handler_needs_url_protocol() {
    let hives = vec![
        Some(ProtocolClassEntry {
            has_url_protocol: false,
            default_value: Some("Not a protocol".to_owned()),
            command: None,
        }),
        Some(ProtocolClassEntry {
            has_url_protocol: true,
            default_value: None,
            command: Some("slack.exe \"%1\"".to_owned()),
        }),
    ];
    let handler = discover_protocol_handler("slack", hives).unwrap();
    assert_eq!(handler.name, "slack handler");
    assert_eq!(handler.command.as_deref(), Some("slack.exe \"%1\""));
    assert!(discover_protocol_handler("slack", vec![None, None]).is_none());
}

#[test]
fn discovered_app_uri_handlers_match_the_lowercased_domain() {
    let apps = vec![
        AppUriHandlerKey {
            app_key_name: "Contoso".to_owned(),
            entries: vec!["*.contoso.com".to_owned()],
        },
        AppUriHandlerKey {
            app_key_name: "Fabrikam".to_owned(),
            entries: vec!["fabrikam.com".to_owned()],
        },
    ];
    let candidates = discover_app_uri_handlers("WWW.Contoso.com", apps);
    assert_eq!(candidates.len(), 1);
    assert_eq!(candidates[0].name, "App URI handler: Contoso");
    assert_eq!(candidates[0].reason, "Windows Apps for Websites match for www.contoso.com");
}

#[test]
fn registry_errors_carry_the_os_message() {
    let error = std::io::Error::new(std::io::ErrorKind::PermissionDenied, "access is denied");
    match registry_error(error) {
        IntegrationError::Registry(message) => assert_eq!(message, "access is denied"),
        _ => panic!("expected a registry error"),
    }
}

#[test]
fn quote_free_command_lines_split_at_whitespace() {
    for line in ["app.exe --flag %1", "  a\tb \u{3000}c  ", "", "one", "C:\\dir\\x.exe\\ y"] {
        let expected: Vec<String> = line.split_whitespace().map(String::from).collect();
        assert_eq!(split_command_line(line), expected);
    }
}

#[test]
fn registered_open_command_parses_back() {
    for exe in [r"C:\Program Files\Link Interceptor\li.exe", r"C:\Tools\li.exe", "li"] {
        let values = registration_values(exe);
        let parts = split_command_line(&values[7].data);
        assert_eq!(parts, vec![exe.to_owned(), "%1".to_owned()]);
    }
}

#[test]
fn reg_sz_bytes_decode_surrogate_pairs() {
    assert_eq!(reg_sz_text(&[0x3D, 0xD8, 0x00, 0xDE, 0x41, 0x00]).as_deref(), Some("\u{1F600}A"));
    assert_eq!(reg_sz_text(&[0x00, 0xDE, 0x41, 0x00]), None);
}
