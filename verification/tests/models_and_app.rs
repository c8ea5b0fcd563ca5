use link_interceptor::app::{
    add_custom_app, add_domain_rule, add_protocol_rule, candidate_kind_label, editor_form,
    matches_query, open_status, record_visit, registration_state_label, remove_custom_app,
    visit_countable,
    toggle_favorite_url, update_custom_app, update_domain_rule, update_protocol_rule, AppMode,
};
use link_interceptor::ipc::{command_for_launch, IpcCommand};
use link_interceptor::models::{
    default_bring_new_windows_to_front, default_close_intercept_window_after_open,
    CandidateKind, Config, CustomApp, DomainRule, HistoryEntry, OpenCandidate, ProtocolRule,
    LaunchRequest, Timestamp,
};
use link_interceptor::clock::{current_time, timestamp_from_epoch_offset};
use link_interceptor::opening_rules::OpeningRuleEditor;
use link_interceptor::windows_integration::RegistrationState;

#[test]
fn open_candidate_drops_blank_commands() {
    let c = OpenCandidate::new(
        "App".to_owned(),
        CandidateKind::Browser,
        Some("   ".to_owned()),
        "%1".to_owned(),
        "r".to_owned(),
    );
    assert_eq!(c.command, None);
    assert!(!c.available);
    let c = OpenCandidate::new(
        "App".to_owned(),
        CandidateKind::Browser,
        Some(" app.exe ".to_owned()),
        "%1".to_owned(),
        "r".to_owned(),
    );
    assert_eq!(c.command.as_deref(), Some(" app.exe "));
    assert!(c.available);
}

#[test]
fn defaults() {
    let config = Config::default();
    assert!(config.bring_new_windows_to_front);
    assert!(config.close_intercept_window_after_open);
    assert!(config.custom_apps.is_empty());
    assert!(default_bring_new_windows_to_front());
    assert!(default_close_intercept_window_after_open());
    assert_eq!(CustomApp::default().name, "自定义应用");
    assert_eq!(CustomApp::default().args_template, "{url}");
    assert_eq!(DomainRule::default().pattern, "example.com");
    assert_eq!(ProtocolRule::default().scheme, "mailto");
    assert_eq!(LaunchRequest::new("u".to_owned()).raw_url, "u");
}

#[test]
fn titles_and_labels() {
    assert_eq!(AppMode::MainWindow.window_title(), "Link Interceptor");
    assert_eq!(AppMode::InterceptWindow.window_title(), "拦截 URL");
    assert_eq!(candidate_kind_label(CandidateKind::ShellFallback), "Windows 默认处理程序");
    assert_eq!(
        registration_state_label(RegistrationState::NotRegistered),
        "状态：尚未注册为浏览器候选项"
    );
}

#[test]
fn search_ignores_case() {
    assert!(matches_query("https://Example.com/Path", ""));
    assert!(matches_query("https://Example.com/Path", "EXAMPLE.COM/p"));
    assert!(!matches_query("https://Example.com/Path", "other"));
}

#[test]
fn blank_urls_are_not_recorded_or_favorited() {
    let mut history: Vec<HistoryEntry> = Vec::new();
    assert!(!record_visit(&mut history, "   "));
    assert!(history.is_empty());
    assert!(record_visit(&mut history, "  https://a.test  "));
    assert_eq!(history[0].url, "https://a.test");
    let mut favorites = Vec::new();
    assert_eq!(toggle_favorite_url(&mut favorites, " "), "没有可收藏的 URL");
    assert_eq!(toggle_favorite_url(&mut favorites, " https://a.test "), "已添加到收藏");
    assert_eq!(favorites[0].url, "https://a.test");
    assert_eq!(toggle_favorite_url(&mut favorites, "https://a.test"), "已从收藏移除");
    assert!(favorites.is_empty());
}

#[test]
fn editor_forms_start_from_the_edited_item() {
    let config = Config {
        custom_apps: vec![CustomApp {
            name: "A".to_owned(),
            executable: "a.exe".to_owned(),
            args_template: "-x".to_owned(),
        }],
        domain_rules: vec![DomainRule {
            pattern: "example.com".to_owned(),
            app_name: "A".to_owned(),
        }],
        ..Default::default()
    };
    let form = editor_form(&config, OpeningRuleEditor::AddDomainRule);
    assert_eq!(form.domain_app_name, "A");
    assert_eq!(form.custom_args, "{url}");
    let form = editor_form(&config, OpeningRuleEditor::EditCustomApp(0));
    assert_eq!(form.custom_executable, "a.exe");
    assert_eq!(form.custom_args, "-x");
    let form = editor_form(&config, OpeningRuleEditor::EditDomainRule(4));
    assert_eq!(form.domain_pattern, "");
}

#[test]
fn launch_command_depends_on_the_url() {
    assert_eq!(command_for_launch(&None), IpcCommand::ShowMain);
    assert_eq!(
        command_for_launch(&Some("x".to_owned())),
        IpcCommand::OpenIntercept { url: "x".to_owned() }
    );
}

#[test]
fn settings_form_adds_updates_and_removes_entries() {
    let mut config = Config::default();
    assert!(!add_custom_app(&mut config, "  ".to_owned(), "a.exe".to_owned(), "{url}".to_owned()));
    assert!(config.custom_apps.is_empty());
    assert!(add_custom_app(&mut config, " App ".to_owned(), "a.exe".to_owned(), "{url}".to_owned()));
    assert_eq!(config.custom_apps[0].name, " App ");
    update_custom_app(&mut config, 0, "Other".to_owned(), "o.exe".to_owned(), "%1".to_owned());
    assert_eq!(config.custom_apps[0].executable, "o.exe");
    update_custom_app(&mut config, 3, "Nope".to_owned(), String::new(), String::new());
    assert_eq!(config.custom_apps.len(), 1);

    assert!(!add_domain_rule(&mut config, String::new(), "Other".to_owned()));
    assert!(add_domain_rule(&mut config, "Example.com".to_owned(), "Other".to_owned()));
    update_domain_rule(&mut config, 0, "example.org".to_owned(), "Other".to_owned());
    assert_eq!(config.domain_rules[0].pattern, "example.org");

    assert!(!add_protocol_rule(&mut config, "\t".to_owned(), "Other".to_owned()));
    assert!(config.protocol_rules.is_empty());
    assert!(add_protocol_rule(&mut config, "mailto".to_owned(), "Other".to_owned()));
    update_protocol_rule(&mut config, 0, "slack".to_owned(), "Other".to_owned());
    assert_eq!(config.protocol_rules[0].scheme, "slack");

    remove_custom_app(&mut config, 0);
    assert!(config.custom_apps.is_empty());
    assert_eq!(config.domain_rules.len(), 1);
    remove_custom_app(&mut config, 0);
    assert!(config.custom_apps.is_empty());
}

#[test]
fn open_status_reports_the_outcome() {
    assert_eq!(open_status("  ", "Edge", None), ("没有可打开的 URL".to_owned(), false));
    assert_eq!(open_status("https://a.example", "Edge", None), ("已通过 Edge 打开".to_owned(), true));
    assert_eq!(
        open_status("https://a.example", "Edge", Some("io error: gone".to_owned())),
        ("Edge 打开失败：io error: gone".to_owned(), false)
    );
}

#[test]
fn a_visit_count_at_its_limit_cannot_grow() {
    let now = Timestamp { seconds: 1, nanos: 0 };
    let mut history = vec![HistoryEntry::new("https://a.example".to_owned(), now)];
    assert!(visit_countable(&history, " https://a.example "));
    history[0].open_count = u64::MAX;
    assert!(!visit_countable(&history, " https://a.example "));
    assert!(visit_countable(&history, "https://b.example"));
}

#[test]
fn clock_offsets_become_timestamps_on_both_sides_of_the_epoch() {
    assert_eq!(timestamp_from_epoch_offset(false, 10, 7), Timestamp { seconds: 10, nanos: 7 });
    assert_eq!(timestamp_from_epoch_offset(true, 5, 0), Timestamp { seconds: -5, nanos: 0 });
    assert_eq!(
        timestamp_from_epoch_offset(true, 1, 250_000_000),
        Timestamp { seconds: -2, nanos: 750_000_000 }
    );
    assert_eq!(timestamp_from_epoch_offset(false, u64::MAX, 0).seconds, i64::MAX);
    assert_eq!(timestamp_from_epoch_offset(true, u64::MAX, 1).seconds, i64::MIN);
    assert_eq!(timestamp_from_epoch_offset(true, 1u64 << 63, 0).seconds, i64::MIN);
    let now = current_time();
    assert!(now.nanos < 1_000_000_000);
    assert!(now.seconds > 1_600_000_000);
    assert!(LaunchRequest::new("u".to_owned()).received_at.seconds > 1_600_000_000);
}

#[test]
fn toggling_a_favorite_adds_the_trimmed_url() {
    let mut favorites = Vec::new();
    assert_eq!(toggle_favorite_url(&mut favorites, "  https://a.example "), "已添加到收藏");
    assert_eq!(favorites.len(), 1);
    assert_eq!(favorites[0].url, "https://a.example");
    assert_eq!(toggle_favorite_url(&mut favorites, "https://a.example"), "已从收藏移除");
    assert!(favorites.is_empty());
}
