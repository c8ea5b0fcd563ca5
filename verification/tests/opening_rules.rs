use link_interceptor::models::{Config, CustomApp, DomainRule, ProtocolRule};
use link_interceptor::opening_rules::{
    custom_app_exists, custom_app_name_exists, custom_app_reference_count, delete_custom_app,
    delete_domain_rule, delete_protocol_rule, display_or_empty, domain_rule_exists,
    protocol_rule_exists, rename_custom_app_references, save_custom_app, save_domain_rule,
    save_protocol_rule, OpeningRuleEditor, RuleEditError,
};

fn test_config() -> Config {
    Config {
        custom_apps: vec![
            CustomApp {
                name: "Example App".to_owned(),
                executable: "example.exe".to_owned(),
                args_template: "{url}".to_owned(),
            },
            CustomApp {
                name: "Mail App".to_owned(),
                executable: "mail.exe".to_owned(),
                args_template: "{url}".to_owned(),
            },
        ],
        domain_rules: vec![DomainRule {
            pattern: "example.com".to_owned(),
            app_name: "Example App".to_owned(),
        }],
        protocol_rules: vec![ProtocolRule {
            scheme: "mailto".to_owned(),
            app_name: "Mail App".to_owned(),
        }],
        ..Default::default()
    }
}

#[test]
fn detects_duplicate_custom_app_names_case_insensitively() {
    let config = test_config();

    assert!(custom_app_name_exists(&config, "example app", None));
    assert!(!custom_app_name_exists(&config, "example app", Some(0)));
    assert!(!custom_app_name_exists(&config, "Other App", None));
}

#[test]
fn detects_duplicate_domain_rules_after_normalization() {
    let config = test_config();

    assert!(domain_rule_exists(
        &config,
        "example.com",
        "Example App",
        None
    ));
    assert!(domain_rule_exists(
        &config,
        "www.example.com",
        "Example App",
        None
    ));
    assert!(!domain_rule_exists(
        &config,
        "example.com",
        "Mail App",
        None
    ));
}

#[test]
fn detects_duplicate_protocol_rules_after_normalization() {
    let config = test_config();

    assert!(protocol_rule_exists(&config, "MAILTO", "Mail App", None));
    assert!(!protocol_rule_exists(
        &config,
        "mailto",
        "Example App",
        None
    ));
}

#[test]
fn renames_custom_app_references() {
    let mut config = test_config();

    rename_custom_app_references(&mut config, "Example App", "Browser Helper");
    rename_custom_app_references(&mut config, "Mail App", "Mail Helper");

    assert_eq!(config.domain_rules[0].app_name, "Browser Helper");
    assert_eq!(config.protocol_rules[0].app_name, "Mail Helper");
}

#[test]
fn custom_app_exists_trims_and_ignores_case() {
    let config = test_config();
    assert!(custom_app_exists(&config, "  mail app "));
    assert!(!custom_app_exists(&config, "Mail"));
}

#[test]
fn saving_a_custom_app_checks_its_fields() {
    let mut config = test_config();
    let before = config.clone();
    assert_eq!(
        save_custom_app(&mut config, None, "   ", "x.exe", ""),
        Err(RuleEditError::EmptyAppName)
    );
    assert_eq!(
        save_custom_app(&mut config, None, "New", "  ", ""),
        Err(RuleEditError::EmptyExecutable)
    );
    assert_eq!(
        save_custom_app(&mut config, None, " MAIL APP ", "x.exe", ""),
        Err(RuleEditError::DuplicateAppName)
    );
    assert_eq!(
        save_custom_app(&mut config, Some(7), "Fresh", "x.exe", ""),
        Err(RuleEditError::MissingCustomApp)
    );
    assert_eq!(config, before);
    assert_eq!(
        save_custom_app(&mut config, None, " Fresh ", " fresh.exe ", " --new {url} "),
        Ok(())
    );
    assert_eq!(config.custom_apps[2].name, "Fresh");
    assert_eq!(config.custom_apps[2].executable, "fresh.exe");
    assert_eq!(config.custom_apps[2].args_template, "--new {url}");
}

#[test]
fn renaming_a_custom_app_moves_its_rules() {
    let mut config = test_config();
    assert_eq!(
        save_custom_app(&mut config, Some(0), "example app", "other.exe", "{url}"),
        Ok(())
    );
    assert_eq!(config.custom_apps[0].name, "example app");
    assert_eq!(config.domain_rules[0].app_name, "example app");
    assert_eq!(
        save_custom_app(&mut config, Some(0), "Renamed", "other.exe", "{url}"),
        Ok(())
    );
    assert_eq!(config.domain_rules[0].app_name, "Renamed");
    assert_eq!(config.protocol_rules[0].app_name, "Mail App");
}

#[test]
fn saving_a_domain_rule_normalizes_and_checks() {
    let mut config = test_config();
    assert_eq!(
        save_domain_rule(&mut config, None, "localhost", "Example App"),
        Err(RuleEditError::InvalidRootDomain)
    );
    assert_eq!(
        save_domain_rule(&mut config, None, "example.org", "Nobody"),
        Err(RuleEditError::UnknownCustomApp)
    );
    assert_eq!(
        save_domain_rule(&mut config, None, "https://www.EXAMPLE.com/x", "example app"),
        Err(RuleEditError::DuplicateDomainRule)
    );
    assert_eq!(
        save_domain_rule(&mut config, Some(3), "example.org", "Mail App"),
        Err(RuleEditError::MissingDomainRule)
    );
    assert_eq!(
        save_domain_rule(&mut config, None, "*.Docs.Example.org", " Mail App "),
        Ok(())
    );
    assert_eq!(config.domain_rules[1].pattern, "example.org");
    assert_eq!(config.domain_rules[1].app_name, "Mail App");
    assert_eq!(
        save_domain_rule(&mut config, Some(0), "example.com", "Example App"),
        Ok(())
    );
}

#[test]
fn saving_a_protocol_rule_normalizes_and_checks() {
    let mut config = test_config();
    assert_eq!(
        save_protocol_rule(&mut config, None, "bad scheme", "Mail App"),
        Err(RuleEditError::InvalidScheme)
    );
    assert_eq!(
        save_protocol_rule(&mut config, None, "MAILTO:", "mail app"),
        Err(RuleEditError::DuplicateProtocolRule)
    );
    assert_eq!(
        save_protocol_rule(&mut config, None, "slack", "Ghost"),
        Err(RuleEditError::UnknownCustomApp)
    );
    assert_eq!(
        save_protocol_rule(&mut config, Some(9), "slack", "Mail App"),
        Err(RuleEditError::MissingProtocolRule)
    );
    assert_eq!(
        save_protocol_rule(&mut config, Some(0), " Slack: ", "Example App"),
        Ok(())
    );
    assert_eq!(config.protocol_rules[0].scheme, "slack");
    assert_eq!(config.protocol_rules[0].app_name, "Example App");
}

#[test]
fn deleting_a_custom_app_deletes_its_rules() {
    let mut config = test_config();
    config.domain_rules.push(DomainRule {
        pattern: "example.net".to_owned(),
        app_name: "MAIL APP".to_owned(),
    });
    assert_eq!(custom_app_reference_count(&config, "mail app"), 2);
    assert!(delete_custom_app(&mut config, 1));
    assert_eq!(config.custom_apps.len(), 1);
    assert_eq!(config.domain_rules.len(), 1);
    assert_eq!(config.domain_rules[0].app_name, "Example App");
    assert!(config.protocol_rules.is_empty());
    assert!(!delete_custom_app(&mut config, 5));
}

#[test]
fn deleting_rules_by_position() {
    let mut config = test_config();
    assert!(!delete_domain_rule(&mut config, 1));
    assert!(delete_domain_rule(&mut config, 0));
    assert!(config.domain_rules.is_empty());
    assert!(!delete_protocol_rule(&mut config, 1));
    assert!(delete_protocol_rule(&mut config, 0));
    assert!(config.protocol_rules.is_empty());
}

#[test]
fn edit_error_messages_and_titles() {
    assert_eq!(RuleEditError::InvalidRootDomain.message(), "根域名无效");
    assert_eq!(OpeningRuleEditor::EditProtocolRule(2).title(), "编辑 URI 协议规则");
    assert_eq!(display_or_empty("  "), "未设置");
    assert_eq!(display_or_empty("x.exe"), "x.exe");
}
