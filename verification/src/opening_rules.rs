//! Editing the custom apps and the domain and protocol rules that offer them: the checks an edit
//! must pass, and what a save or a delete does to the configuration.
use vstd::prelude::*;
use crate::models::{
    Config, ConfigView, CustomApp, CustomAppView, DomainRule, DomainRuleView, ProtocolRule,
    ProtocolRuleView, apps_view, domain_rules_view, protocol_rules_view,
};
use crate::rules::{normalize_protocol_scheme, normalize_root_domain, protocol_scheme, root_domain};
use crate::text::{
    chars_of, eq_ignore_ascii_case, eq_ignore_case, opt_text, string_from, trim, trim_chars,
};

verus! {

/// Which editor window is open: adding or editing (at a position) a custom app, a domain rule or
/// a protocol rule.
#[derive(Debug, Clone, Copy, PartialEq, Eq, Structural)]
pub enum OpeningRuleEditor {
    AddCustomApp,
    EditCustomApp(usize),
    AddDomainRule,
    EditDomainRule(usize),
    AddProtocolRule,
    EditProtocolRule(usize),
}

impl OpeningRuleEditor {
    /// The editor window's title.
    pub fn title(self) -> (r: &'static str)
        ensures
            r@ == match self {
                OpeningRuleEditor::AddCustomApp => "新增自定义打开目标"@,
                OpeningRuleEditor::EditCustomApp(_) => "编辑自定义打开目标"@,
                OpeningRuleEditor::AddDomainRule => "新增根域名规则"@,
                OpeningRuleEditor::EditDomainRule(_) => "编辑根域名规则"@,
                OpeningRuleEditor::AddProtocolRule => "新增 URI 协议规则"@,
                OpeningRuleEditor::EditProtocolRule(_) => "编辑 URI 协议规则"@,
            },
    {
        match self {
            OpeningRuleEditor::AddCustomApp => "新增自定义打开目标",
            OpeningRuleEditor::EditCustomApp(_) => "编辑自定义打开目标",
            OpeningRuleEditor::AddDomainRule => "新增根域名规则",
            OpeningRuleEditor::EditDomainRule(_) => "编辑根域名规则",
            OpeningRuleEditor::AddProtocolRule => "新增 URI 协议规则",
            OpeningRuleEditor::EditProtocolRule(_) => "编辑 URI 协议规则",
        }
    }
}

/// Position `i` is not the excepted position.
pub open spec fn is_other(i: int, except: Option<usize>) -> bool {
    match except {
        Some(e) => i != e as int,
        None => true,
    }
}

/// Some custom app is named `name`, up to ASCII case.
pub open spec fn app_named(apps: Seq<CustomAppView>, name: Seq<char>) -> bool {
    exists|i: int| 0 <= i < apps.len() && eq_ignore_case(#[trigger] apps[i].name, name)
}

/// A custom app other than the one at `except` is named `name`, up to ASCII case.
pub open spec fn other_app_named(apps: Seq<CustomAppView>, name: Seq<char>, except: Option<usize>) -> bool {
    exists|i: int|
        0 <= i < apps.len() && is_other(i, except) && eq_ignore_case(#[trigger] apps[i].name, name)
}

/// A domain rule other than the one at `except` names the app `app_name` (up to ASCII case) and
/// a pattern with the root domain `root` (up to ASCII case).
pub open spec fn other_domain_rule(
    rules: Seq<DomainRuleView>,
    root: Seq<char>,
    app_name: Seq<char>,
    except: Option<usize>,
) -> bool {
    exists|i: int|
        0 <= i < rules.len() && is_other(i, except) && eq_ignore_case(
            #[trigger] rules[i].app_name,
            app_name,
        ) && match root_domain(rules[i].pattern) {
            Some(e) => eq_ignore_case(e, root),
            None => false,
        }
}

/// A protocol rule other than the one at `except` names the app `app_name` and a scheme that
/// normalises to `scheme` (both up to ASCII case).
pub open spec fn other_protocol_rule(
    rules: Seq<ProtocolRuleView>,
    scheme: Seq<char>,
    app_name: Seq<char>,
    except: Option<usize>,
) -> bool {
    exists|i: int|
        0 <= i < rules.len() && is_other(i, except) && eq_ignore_case(
            #[trigger] rules[i].app_name,
            app_name,
        ) && match protocol_scheme(rules[i].scheme) {
            Some(e) => eq_ignore_case(e, scheme),
            None => false,
        }
}

/// Whether a custom app is named `name` (trimmed), up to ASCII case.
pub fn custom_app_exists(config: &Config, name: &str) -> (r: bool)
    ensures
        r == app_named(config@.custom_apps, trim(name@)),
{
    let nc = chars_of(name);
    let trimmed = string_from(&trim_chars(&nc));
    let mut i: usize = 0;
    while i < config.custom_apps.len()
        invariant
            i <= config.custom_apps@.len(),
            trimmed@ == trim(name@),
            forall|k: int| 0 <= k < i ==> !eq_ignore_case(#[trigger] config@.custom_apps[k].name, trimmed@),
        decreases config.custom_apps.len() - i,
    {
        if eq_ignore_ascii_case(config.custom_apps[i].name.as_str(), trimmed.as_str()) {
            proof {
                assert(config@.custom_apps[i as int].name == config.custom_apps@[i as int].name@);
            }
            return true;
        }
        i += 1;
    }
    false
}

/// Whether a custom app other than the one at `except_index` is named `name` (trimmed), up to
/// ASCII case.
pub fn custom_app_name_exists(config: &Config, name: &str, except_index: Option<usize>) -> (r: bool)
    ensures
        r == other_app_named(config@.custom_apps, trim(name@), except_index),
{
    let nc = chars_of(name);
    let trimmed = string_from(&trim_chars(&nc));
    let mut i: usize = 0;
    while i < config.custom_apps.len()
        invariant
            i <= config.custom_apps@.len(),
            trimmed@ == trim(name@),
            forall|k: int|
                0 <= k < i ==> !(is_other(k, except_index) && eq_ignore_case(
                    #[trigger] config@.custom_apps[k].name,
                    trimmed@,
                )),
        decreases config.custom_apps.len() - i,
    {
        let other = match except_index {
            Some(e) => e != i,
            None => true,
        };
        if other && eq_ignore_ascii_case(config.custom_apps[i].name.as_str(), trimmed.as_str()) {
            proof {
                assert(config@.custom_apps[i as int].name == config.custom_apps@[i as int].name@);
            }
            return true;
        }
        i += 1;
    }
    false
}

/// Whether a domain rule other than the one at `except_index` already names the app `app_name`
/// and the root domain of `pattern`; `false` where `pattern` names no root domain.
pub fn domain_rule_exists(config: &Config, pattern: &str, app_name: &str, except_index: Option<usize>) -> (r: bool)
    ensures
        r == match root_domain(pattern@) {
            Some(p) => other_domain_rule(config@.domain_rules, p, app_name@, except_index),
            None => false,
        },
{
    let root = match normalize_root_domain(pattern) {
        Some(p) => p,
        None => {
            return false;
        },
    };
    let mut i: usize = 0;
    while i < config.domain_rules.len()
        invariant
            i <= config.domain_rules@.len(),
            opt_text(Some(root)) == root_domain(pattern@),
            forall|k: int|
                0 <= k < i ==> !(is_other(k, except_index) && eq_ignore_case(
                    #[trigger] config@.domain_rules[k].app_name,
                    app_name@,
                ) && match root_domain(config@.domain_rules[k].pattern) {
                    Some(e) => eq_ignore_case(e, root@),
                    None => false,
                }),
        decreases config.domain_rules.len() - i,
    {
        let rule = &config.domain_rules[i];
        proof {
            assert(config@.domain_rules[i as int] == rule@);
        }
        let other = match except_index {
            Some(e) => e != i,
            None => true,
        };
        if other && eq_ignore_ascii_case(rule.app_name.as_str(), app_name) {
            let same = match normalize_root_domain(rule.pattern.as_str()) {
                Some(existing) => eq_ignore_ascii_case(existing.as_str(), root.as_str()),
                None => false,
            };
            if same {
                proof {
                    let p = root_domain(pattern@)->0;
                    assert(eq_ignore_case(config@.domain_rules[i as int].app_name, app_name@));
                    assert(other_domain_rule(config@.domain_rules, p, app_name@, except_index));
                }
                return true;
            }
        }
        i += 1;
    }
    false
}

/// Whether a protocol rule other than the one at `except_index` already names the app
/// `app_name` and the scheme `scheme` names; `false` where `scheme` names no scheme.
pub fn protocol_rule_exists(config: &Config, scheme: &str, app_name: &str, except_index: Option<usize>) -> (r: bool)
    ensures
        r == match protocol_scheme(scheme@) {
            Some(s) => other_protocol_rule(config@.protocol_rules, s, app_name@, except_index),
            None => false,
        },
{
    let normalized = match normalize_protocol_scheme(scheme) {
        Some(s) => s,
        None => {
            return false;
        },
    };
    let mut i: usize = 0;
    while i < config.protocol_rules.len()
        invariant
            i <= config.protocol_rules@.len(),
            opt_text(Some(normalized)) == protocol_scheme(scheme@),
            forall|k: int|
                0 <= k < i ==> !(is_other(k, except_index) && eq_ignore_case(
                    #[trigger] config@.protocol_rules[k].app_name,
                    app_name@,
                ) && match protocol_scheme(config@.protocol_rules[k].scheme) {
                    Some(e) => eq_ignore_case(e, normalized@),
                    None => false,
                }),
        decreases config.protocol_rules.len() - i,
    {
        let rule = &config.protocol_rules[i];
        proof {
            assert(config@.protocol_rules[i as int] == rule@);
        }
        let other = match except_index {
            Some(e) => e != i,
            None => true,
        };
        if other && eq_ignore_ascii_case(rule.app_name.as_str(), app_name) {
            let same = match normalize_protocol_scheme(rule.scheme.as_str()) {
                Some(existing) => eq_ignore_ascii_case(existing.as_str(), normalized.as_str()),
                None => false,
            };
            if same {
                proof {
                    let p = protocol_scheme(scheme@)->0;
                    assert(eq_ignore_case(config@.protocol_rules[i as int].app_name, app_name@));
                    assert(other_protocol_rule(config@.protocol_rules, p, app_name@, except_index));
                }
                return true;
            }
        }
        i += 1;
    }
    false
}

/// The number of domain rules that name the app `name`, up to ASCII case.
pub open spec fn domain_references(rules: Seq<DomainRuleView>, name: Seq<char>) -> nat
    decreases rules.len(),
{
    if rules.len() == 0 {
        0
    } else {
        domain_references(rules.drop_last(), name) + if eq_ignore_case(rules.last().app_name, name) {
            1nat
        } else {
            0nat
        }
    }
}

/// The number of protocol rules that name the app `name`, up to ASCII case.
pub open spec fn protocol_references(rules: Seq<ProtocolRuleView>, name: Seq<char>) -> nat
    decreases rules.len(),
{
    if rules.len() == 0 {
        0
    } else {
        protocol_references(rules.drop_last(), name) + if eq_ignore_case(rules.last().app_name, name) {
            1nat
        } else {
            0nat
        }
    }
}

proof fn lemma_domain_references_bound(rules: Seq<DomainRuleView>, name: Seq<char>)
    ensures
        domain_references(rules, name) <= rules.len(),
    decreases rules.len(),
{
    if rules.len() > 0 {
        lemma_domain_references_bound(rules.drop_last(), name);
    }
}

proof fn lemma_protocol_references_bound(rules: Seq<ProtocolRuleView>, name: Seq<char>)
    ensures
        protocol_references(rules, name) <= rules.len(),
    decreases rules.len(),
{
    if rules.len() > 0 {
        lemma_protocol_references_bound(rules.drop_last(), name);
    }
}

/// The number of rules, domain and protocol, that name the custom app `name`.
pub fn custom_app_reference_count(config: &Config, name: &str) -> (r: usize)
    requires
        config.domain_rules@.len() + config.protocol_rules@.len() <= usize::MAX,
    ensures
        r == domain_references(config@.domain_rules, name@) + protocol_references(
            config@.protocol_rules,
            name@,
        ),
{
    let ghost drules = config@.domain_rules;
    let ghost prules = config@.protocol_rules;
    let mut count: usize = 0;
    let mut i: usize = 0;
    while i < config.domain_rules.len()
        invariant
            i <= config.domain_rules@.len(),
            drules == config@.domain_rules,
            count == domain_references(drules.take(i as int), name@),
            count <= i,
        decreases config.domain_rules.len() - i,
    {
        proof {
            assert(drules.take(i + 1).drop_last() =~= drules.take(i as int));
            assert(drules.take(i + 1).last() == config.domain_rules@[i as int]@);
        }
        if eq_ignore_ascii_case(config.domain_rules[i].app_name.as_str(), name) {
            count += 1;
        }
        i += 1;
    }
    proof {
        assert(drules.take(i as int) =~= drules);
    }
    let mut j: usize = 0;
    while j < config.protocol_rules.len()
        invariant
            j <= config.protocol_rules@.len(),
            prules == config@.protocol_rules,
            config.domain_rules@.len() + config.protocol_rules@.len() <= usize::MAX,
            count == domain_references(drules, name@) + protocol_references(prules.take(j as int), name@),
            count <= config.domain_rules@.len() + j,
        decreases config.protocol_rules.len() - j,
    {
        proof {
            assert(prules.take(j + 1).drop_last() =~= prules.take(j as int));
            assert(prules.take(j + 1).last() == config.protocol_rules@[j as int]@);
        }
        if eq_ignore_ascii_case(config.protocol_rules[j].app_name.as_str(), name) {
            count += 1;
        }
        j += 1;
    }
    proof {
        assert(prules.take(j as int) =~= prules);
    }
    count
}

/// `rules` with every reference to the app `old_name` (up to ASCII case) changed to `new_name`.
pub open spec fn renamed_domain_rules(rules: Seq<DomainRuleView>, old_name: Seq<char>, new_name: Seq<char>) -> Seq<
    DomainRuleView,
> {
    Seq::new(
        rules.len(),
        |i: int|
            if eq_ignore_case(rules[i].app_name, old_name) {
                DomainRuleView { app_name: new_name, ..rules[i] }
            } else {
                rules[i]
            },
    )
}

/// `rules` with every reference to the app `old_name` (up to ASCII case) changed to `new_name`.
pub open spec fn renamed_protocol_rules(
    rules: Seq<ProtocolRuleView>,
    old_name: Seq<char>,
    new_name: Seq<char>,
) -> Seq<ProtocolRuleView> {
    Seq::new(
        rules.len(),
        |i: int|
            if eq_ignore_case(rules[i].app_name, old_name) {
                ProtocolRuleView { app_name: new_name, ..rules[i] }
            } else {
                rules[i]
            },
    )
}

/// The configuration with every rule that names the app `old_name` (up to ASCII case) naming
/// `new_name` instead.
pub open spec fn renamed_config(c: ConfigView, old_name: Seq<char>, new_name: Seq<char>) -> ConfigView {
    ConfigView {
        domain_rules: renamed_domain_rules(c.domain_rules, old_name, new_name),
        protocol_rules: renamed_protocol_rules(c.protocol_rules, old_name, new_name),
        ..c
    }
}

/// Makes every rule that names the app `old_name` (up to ASCII case) name `new_name` instead.
pub fn rename_custom_app_references(config: &mut Config, old_name: &str, new_name: &str)
    ensures
        final(config)@ == renamed_config(old(config)@, old_name@, new_name@),
{
    let ghost start = config@;
    let ghost target = renamed_domain_rules(start.domain_rules, old_name@, new_name@);
    let mut i: usize = 0;
    proof {
        assert(config@.domain_rules =~= Seq::new(
            start.domain_rules.len(),
            |k: int| if k < 0 { target[k] } else { start.domain_rules[k] },
        ));
    }
    while i < config.domain_rules.len()
        invariant
            i <= config.domain_rules@.len(),
            config.domain_rules@.len() == start.domain_rules.len(),
            target == renamed_domain_rules(start.domain_rules, old_name@, new_name@),
            config@.custom_apps == start.custom_apps,
            config@.protocol_rules == start.protocol_rules,
            config@.bring_new_windows_to_front == start.bring_new_windows_to_front,
            config@.close_intercept_window_after_open == start.close_intercept_window_after_open,
            config@.domain_rules == Seq::new(
                start.domain_rules.len(),
                |k: int| if k < i { target[k] } else { start.domain_rules[k] },
            ),
        decreases config.domain_rules.len() - i,
    {
        let ghost before = config.domain_rules@;
        let ghost before_view = config@.domain_rules;
        proof {
            assert(before_view[i as int] == start.domain_rules[i as int]);
            assert(before_view[i as int] == before[i as int]@);
        }
        if eq_ignore_ascii_case(config.domain_rules[i].app_name.as_str(), old_name) {
            let mut rule = config.domain_rules.remove(i);
            rule.app_name = new_name.to_owned();
            config.domain_rules.insert(i, rule);
            proof {
                assert(config.domain_rules@ =~= before.update(i as int, rule));
                assert(config@.domain_rules =~= before_view.update(i as int, rule@));
            }
        } else {
            proof {
                assert(target[i as int] == start.domain_rules[i as int]);
            }
        }
        i += 1;
        proof {
            assert(config@.domain_rules =~= Seq::new(
                start.domain_rules.len(),
                |k: int| if k < i { target[k] } else { start.domain_rules[k] },
            ));
        }
    }
    proof {
        assert(config@.domain_rules =~= target);
    }
    let ghost ptarget = renamed_protocol_rules(start.protocol_rules, old_name@, new_name@);
    let mut j: usize = 0;
    proof {
        assert(config@.protocol_rules =~= Seq::new(
            start.protocol_rules.len(),
            |k: int| if k < 0 { ptarget[k] } else { start.protocol_rules[k] },
        ));
    }
    while j < config.protocol_rules.len()
        invariant
            j <= config.protocol_rules@.len(),
            config.protocol_rules@.len() == start.protocol_rules.len(),
            ptarget == renamed_protocol_rules(start.protocol_rules, old_name@, new_name@),
            config@.custom_apps == start.custom_apps,
            config@.domain_rules == target,
            config@.bring_new_windows_to_front == start.bring_new_windows_to_front,
            config@.close_intercept_window_after_open == start.close_intercept_window_after_open,
            config@.protocol_rules == Seq::new(
                start.protocol_rules.len(),
                |k: int| if k < j { ptarget[k] } else { start.protocol_rules[k] },
            ),
        decreases config.protocol_rules.len() - j,
    {
        let ghost before = config.protocol_rules@;
        let ghost before_view = config@.protocol_rules;
        proof {
            assert(before_view[j as int] == start.protocol_rules[j as int]);
            assert(before_view[j as int] == before[j as int]@);
        }
        if eq_ignore_ascii_case(config.protocol_rules[j].app_name.as_str(), old_name) {
            let mut rule = config.protocol_rules.remove(j);
            rule.app_name = new_name.to_owned();
            config.protocol_rules.insert(j, rule);
            proof {
                assert(config.protocol_rules@ =~= before.update(j as int, rule));
                assert(config@.protocol_rules =~= before_view.update(j as int, rule@));
            }
        } else {
            proof {
                assert(ptarget[j as int] == start.protocol_rules[j as int]);
            }
        }
        j += 1;
        proof {
            assert(config@.protocol_rules =~= Seq::new(
                start.protocol_rules.len(),
                |k: int| if k < j { ptarget[k] } else { start.protocol_rules[k] },
            ));
        }
    }
    proof {
        assert(config@.protocol_rules =~= ptarget);
        assert(config@ =~= renamed_config(start, old_name@, new_name@));
    }
}

/// Why an edit of the custom apps or rules was refused.
#[derive(Debug, Clone, Copy, PartialEq, Eq, Structural)]
pub enum RuleEditError {
    EmptyAppName,
    EmptyExecutable,
    DuplicateAppName,
    MissingCustomApp,
    InvalidRootDomain,
    UnknownCustomApp,
    DuplicateDomainRule,
    MissingDomainRule,
    InvalidScheme,
    DuplicateProtocolRule,
    MissingProtocolRule,
}

impl RuleEditError {
    /// The message shown for the error.
    pub fn message(self) -> (r: &'static str)
        ensures
            r@ == match self {
                RuleEditError::EmptyAppName => "自定义打开目标名称不能为空"@,
                RuleEditError::EmptyExecutable => "可执行文件不能为空"@,
                RuleEditError::DuplicateAppName => "自定义打开目标名称不能重复"@,
                RuleEditError::MissingCustomApp => "要保存的自定义打开目标不存在"@,
                RuleEditError::InvalidRootDomain => "根域名无效"@,
                RuleEditError::UnknownCustomApp => "请选择有效的自定义打开目标"@,
                RuleEditError::DuplicateDomainRule => "相同根域名和自定义打开目标的规则已存在"@,
                RuleEditError::MissingDomainRule => "要保存的根域名规则不存在"@,
                RuleEditError::InvalidScheme => "URI 协议无效"@,
                RuleEditError::DuplicateProtocolRule => "相同 URI 协议和自定义打开目标的规则已存在"@,
                RuleEditError::MissingProtocolRule => "要保存的 URI 协议规则不存在"@,
            },
    {
        match self {
            RuleEditError::EmptyAppName => "自定义打开目标名称不能为空",
            RuleEditError::EmptyExecutable => "可执行文件不能为空",
            RuleEditError::DuplicateAppName => "自定义打开目标名称不能重复",
            RuleEditError::MissingCustomApp => "要保存的自定义打开目标不存在",
            RuleEditError::InvalidRootDomain => "根域名无效",
            RuleEditError::UnknownCustomApp => "请选择有效的自定义打开目标",
            RuleEditError::DuplicateDomainRule => "相同根域名和自定义打开目标的规则已存在",
            RuleEditError::MissingDomainRule => "要保存的根域名规则不存在",
            RuleEditError::InvalidScheme => "URI 协议无效",
            RuleEditError::DuplicateProtocolRule => "相同 URI 协议和自定义打开目标的规则已存在",
            RuleEditError::MissingProtocolRule => "要保存的 URI 协议规则不存在",
        }
    }
}

/// What saving a custom app does: the name, executable and argument template are trimmed; the
/// name and executable must not be empty, and no other app may have the name (up to ASCII
/// case). A new app is appended; an edited app is replaced, and the rules that named it name it
/// by its new name.
pub open spec fn custom_app_saved(
    c: ConfigView,
    index: Option<usize>,
    name: Seq<char>,
    executable: Seq<char>,
    args_template: Seq<char>,
) -> Result<ConfigView, RuleEditError> {
    let n = trim(name);
    let e = trim(executable);
    let a = trim(args_template);
    let app = CustomAppView { name: n, executable: e, args_template: a };
    if n.len() == 0 {
        Err(RuleEditError::EmptyAppName)
    } else if e.len() == 0 {
        Err(RuleEditError::EmptyExecutable)
    } else if other_app_named(c.custom_apps, trim(n), index) {
        Err(RuleEditError::DuplicateAppName)
    } else {
        match index {
            Some(i) => if i < c.custom_apps.len() {
                Ok(
                    renamed_config(
                        ConfigView { custom_apps: c.custom_apps.update(i as int, app), ..c },
                        c.custom_apps[i as int].name,
                        n,
                    ),
                )
            } else {
                Err(RuleEditError::MissingCustomApp)
            },
            None => Ok(ConfigView { custom_apps: c.custom_apps.push(app), ..c }),
        }
    }
}

/// Adds (`index` is `None`) or replaces (at `index`) a custom app; on an error the
/// configuration is left unchanged.
pub fn save_custom_app(
    config: &mut Config,
    index: Option<usize>,
    name: &str,
    executable: &str,
    args_template: &str,
) -> (r: Result<(), RuleEditError>)
    ensures
        match custom_app_saved(old(config)@, index, name@, executable@, args_template@) {
            Ok(c) => r is Ok && final(config)@ == c,
            Err(e) => r == Err::<(), RuleEditError>(e) && final(config)@ == old(config)@,
        },
{
    let name = string_from(&trim_chars(&chars_of(name)));
    let executable = string_from(&trim_chars(&chars_of(executable)));
    let args_template = string_from(&trim_chars(&chars_of(args_template)));
    let ghost n = name@;
    let ghost e = executable@;
    let ghost a = args_template@;
    if name.as_str().is_empty() {
        return Err(RuleEditError::EmptyAppName);
    }
    if executable.as_str().is_empty() {
        return Err(RuleEditError::EmptyExecutable);
    }
    if custom_app_name_exists(config, name.as_str(), index) {
        return Err(RuleEditError::DuplicateAppName);
    }
    let ghost start = config@;
    match index {
        Some(i) => {
            if i < config.custom_apps.len() {
                let ghost before = config.custom_apps@;
                let old_app = config.custom_apps.remove(i);
                let new_name = name.clone();
                let app = CustomApp { name: new_name, executable, args_template };
                config.custom_apps.insert(i, app);
                proof {
                    assert(config.custom_apps@ =~= before.update(i as int, app));
                    assert(apps_view(config.custom_apps@) =~= start.custom_apps.update(
                        i as int,
                        CustomAppView { name: n, executable: e, args_template: a },
                    ));
                    assert(old_app.name@ == start.custom_apps[i as int].name);
                    assert(config@ =~= (ConfigView {
                        custom_apps: start.custom_apps.update(
                            i as int,
                            CustomAppView { name: n, executable: e, args_template: a },
                        ),
                        ..start
                    }));
                }
                rename_custom_app_references(config, old_app.name.as_str(), name.as_str());
                Ok(())
            } else {
                Err(RuleEditError::MissingCustomApp)
            }
        },
        None => {
            config.custom_apps.push(CustomApp { name, executable, args_template });
            proof {
                assert(config@ =~= (ConfigView {
                    custom_apps: start.custom_apps.push(CustomAppView {
                        name: n,
                        executable: e,
                        args_template: a,
                    }),
                    ..start
                }));
            }
            Ok(())
        },
    }
}

/// Law: a saved custom app is edited in place or appended. A successful save at position `i`
/// keeps the number of apps, puts the app (its trimmed name, executable and argument template)
/// at `i`, leaves every other app where and as it was, and makes exactly the rules that named
/// the replaced app (up to ASCII case) name the new one, each rule staying at its position with
/// its pattern or scheme. A save without a position appends the app and touches no rule. The
/// window settings are never touched.
pub proof fn lemma_save_custom_app_in_place(
    c: ConfigView,
    index: Option<usize>,
    name: Seq<char>,
    executable: Seq<char>,
    args_template: Seq<char>,
    out: ConfigView,
)
    requires
        custom_app_saved(c, index, name, executable, args_template) == Ok::<
            ConfigView,
            RuleEditError,
        >(out),
    ensures
        out.bring_new_windows_to_front == c.bring_new_windows_to_front,
        out.close_intercept_window_after_open == c.close_intercept_window_after_open,
        match index {
            Some(i) => {
                &&& i < c.custom_apps.len()
                &&& out.custom_apps.len() == c.custom_apps.len()
                &&& out.custom_apps[i as int] == (CustomAppView {
                    name: trim(name),
                    executable: trim(executable),
                    args_template: trim(args_template),
                })
                &&& forall|j: int|
                    0 <= j < c.custom_apps.len() && j != i ==> #[trigger] out.custom_apps[j]
                        == c.custom_apps[j]
                &&& out.domain_rules.len() == c.domain_rules.len()
                &&& forall|j: int|
                    0 <= j < c.domain_rules.len() ==> #[trigger] out.domain_rules[j] == if eq_ignore_case(
                        c.domain_rules[j].app_name,
                        c.custom_apps[i as int].name,
                    ) {
                        DomainRuleView { pattern: c.domain_rules[j].pattern, app_name: trim(name) }
                    } else {
                        c.domain_rules[j]
                    }
                &&& out.protocol_rules.len() == c.protocol_rules.len()
                &&& forall|j: int|
                    0 <= j < c.protocol_rules.len() ==> #[trigger] out.protocol_rules[j] == if eq_ignore_case(
                        c.protocol_rules[j].app_name,
                        c.custom_apps[i as int].name,
                    ) {
                        ProtocolRuleView { scheme: c.protocol_rules[j].scheme, app_name: trim(name) }
                    } else {
                        c.protocol_rules[j]
                    }
            },
            None => {
                &&& out.custom_apps.len() == c.custom_apps.len() + 1
                &&& out.custom_apps[c.custom_apps.len() as int] == (CustomAppView {
                    name: trim(name),
                    executable: trim(executable),
                    args_template: trim(args_template),
                })
                &&& forall|j: int|
                    0 <= j < c.custom_apps.len() ==> #[trigger] out.custom_apps[j] == c.custom_apps[j]
                &&& out.domain_rules == c.domain_rules
                &&& out.protocol_rules == c.protocol_rules
            },
        },
{
}

/// What saving a domain rule does: the pattern is normalised to its root domain, which it must
/// have; the trimmed app name must name a custom app; no other rule may name the same root
/// domain and app. A new rule is appended; an edited rule is replaced.
pub open spec fn domain_rule_saved(
    c: ConfigView,
    index: Option<usize>,
    pattern: Seq<char>,
    app_name: Seq<char>,
) -> Result<ConfigView, RuleEditError> {
    match root_domain(pattern) {
        None => Err(RuleEditError::InvalidRootDomain),
        Some(root) => {
            let a = trim(app_name);
            let rule = DomainRuleView { pattern: root, app_name: a };
            if !app_named(c.custom_apps, trim(a)) {
                Err(RuleEditError::UnknownCustomApp)
            } else if (match root_domain(root) {
                Some(p) => other_domain_rule(c.domain_rules, p, a, index),
                None => false,
            }) {
                Err(RuleEditError::DuplicateDomainRule)
            } else {
                match index {
                    Some(i) => if i < c.domain_rules.len() {
                        Ok(ConfigView { domain_rules: c.domain_rules.update(i as int, rule), ..c })
                    } else {
                        Err(RuleEditError::MissingDomainRule)
                    },
                    None => Ok(ConfigView { domain_rules: c.domain_rules.push(rule), ..c }),
                }
            }
        },
    }
}

/// Law: a saved domain rule is edited in place or appended. A successful save at position `i`
/// keeps the number of domain rules, puts the rule (the pattern's root domain, the trimmed app
/// name) at `i` and leaves every other rule where and as it was; a save without a position
/// appends the rule after the others. The custom apps, the protocol rules and the window
/// settings are never touched.
pub proof fn lemma_save_domain_rule_in_place(
    c: ConfigView,
    index: Option<usize>,
    pattern: Seq<char>,
    app_name: Seq<char>,
    out: ConfigView,
)
    requires
        domain_rule_saved(c, index, pattern, app_name) == Ok::<ConfigView, RuleEditError>(out),
    ensures
        root_domain(pattern) is Some,
        out.custom_apps == c.custom_apps,
        out.protocol_rules == c.protocol_rules,
        out.bring_new_windows_to_front == c.bring_new_windows_to_front,
        out.close_intercept_window_after_open == c.close_intercept_window_after_open,
        match index {
            Some(i) => {
                &&& i < c.domain_rules.len()
                &&& out.domain_rules.len() == c.domain_rules.len()
                &&& out.domain_rules[i as int] == (DomainRuleView {
                    pattern: root_domain(pattern)->0,
                    app_name: trim(app_name),
                })
                &&& forall|j: int|
                    0 <= j < c.domain_rules.len() && j != i ==> #[trigger] out.domain_rules[j]
                        == c.domain_rules[j]
            },
            None => {
                &&& out.domain_rules.len() == c.domain_rules.len() + 1
                &&& out.domain_rules[c.domain_rules.len() as int] == (DomainRuleView {
                    pattern: root_domain(pattern)->0,
                    app_name: trim(app_name),
                })
                &&& forall|j: int|
                    0 <= j < c.domain_rules.len() ==> #[trigger] out.domain_rules[j] == c.domain_rules[j]
            },
        },
{
}

/// Adds (`index` is `None`) or replaces (at `index`) a domain rule; on an error the
/// configuration is left unchanged.
pub fn save_domain_rule(config: &mut Config, index: Option<usize>, pattern: &str, app_name: &str) -> (r:
    Result<(), RuleEditError>)
    ensures
        match domain_rule_saved(old(config)@, index, pattern@, app_name@) {
            Ok(c) => r is Ok && final(config)@ == c,
            Err(e) => r == Err::<(), RuleEditError>(e) && final(config)@ == old(config)@,
        },
{
    let root = match normalize_root_domain(pattern) {
        Some(p) => p,
        None => {
            return Err(RuleEditError::InvalidRootDomain);
        },
    };
    let app_name = string_from(&trim_chars(&chars_of(app_name)));
    if !custom_app_exists(config, app_name.as_str()) {
        return Err(RuleEditError::UnknownCustomApp);
    }
    if domain_rule_exists(config, root.as_str(), app_name.as_str(), index) {
        return Err(RuleEditError::DuplicateDomainRule);
    }
    let ghost start = config@;
    let rule = DomainRule { pattern: root, app_name };
    match index {
        Some(i) => {
            if i < config.domain_rules.len() {
                let _old_rule = config.domain_rules.remove(i);
                config.domain_rules.insert(i, rule);
                proof {
                    assert(config@ =~= (ConfigView {
                        domain_rules: start.domain_rules.update(i as int, rule@),
                        ..start
                    }));
                }
                Ok(())
            } else {
                Err(RuleEditError::MissingDomainRule)
            }
        },
        None => {
            config.domain_rules.push(rule);
            proof {
                assert(config@ =~= (ConfigView { domain_rules: start.domain_rules.push(rule@), ..start }));
            }
            Ok(())
        },
    }
}

/// What saving a protocol rule does: the scheme is normalised, and must be a valid scheme; the
/// trimmed app name must name a custom app; no other rule may name the same scheme and app. A
/// new rule is appended; an edited rule is replaced.
pub open spec fn protocol_rule_saved(
    c: ConfigView,
    index: Option<usize>,
    scheme: Seq<char>,
    app_name: Seq<char>,
) -> Result<ConfigView, RuleEditError> {
    match protocol_scheme(scheme) {
        None => Err(RuleEditError::InvalidScheme),
        Some(s) => {
            let a = trim(app_name);
            let rule = ProtocolRuleView { scheme: s, app_name: a };
            if !app_named(c.custom_apps, trim(a)) {
                Err(RuleEditError::UnknownCustomApp)
            } else if (match protocol_scheme(s) {
                Some(p) => other_protocol_rule(c.protocol_rules, p, a, index),
                None => false,
            }) {
                Err(RuleEditError::DuplicateProtocolRule)
            } else {
                match index {
                    Some(i) => if i < c.protocol_rules.len() {
                        Ok(ConfigView { protocol_rules: c.protocol_rules.update(i as int, rule), ..c })
                    } else {
                        Err(RuleEditError::MissingProtocolRule)
                    },
                    None => Ok(ConfigView { protocol_rules: c.protocol_rules.push(rule), ..c }),
                }
            }
        },
    }
}

/// Law: a saved protocol rule is edited in place or appended. A successful save at position `i`
/// keeps the number of protocol rules, puts the rule (the normalised scheme, the trimmed app
/// name) at `i` and leaves every other rule where and as it was; a save without a position
/// appends the rule after the others. The custom apps, the domain rules and the window
/// settings are never touched.
pub proof fn lemma_save_protocol_rule_in_place(
    c: ConfigView,
    index: Option<usize>,
    scheme: Seq<char>,
    app_name: Seq<char>,
    out: ConfigView,
)
    requires
        protocol_rule_saved(c, index, scheme, app_name) == Ok::<ConfigView, RuleEditError>(out),
    ensures
        protocol_scheme(scheme) is Some,
        out.custom_apps == c.custom_apps,
        out.domain_rules == c.domain_rules,
        out.bring_new_windows_to_front == c.bring_new_windows_to_front,
        out.close_intercept_window_after_open == c.close_intercept_window_after_open,
        match index {
            Some(i) => {
                &&& i < c.protocol_rules.len()
                &&& out.protocol_rules.len() == c.protocol_rules.len()
                &&& out.protocol_rules[i as int] == (ProtocolRuleView {
                    scheme: protocol_scheme(scheme)->0,
                    app_name: trim(app_name),
                })
                &&& forall|j: int|
                    0 <= j < c.protocol_rules.len() && j != i ==> #[trigger] out.protocol_rules[j]
                        == c.protocol_rules[j]
            },
            None => {
                &&& out.protocol_rules.len() == c.protocol_rules.len() + 1
                &&& out.protocol_rules[c.protocol_rules.len() as int] == (ProtocolRuleView {
                    scheme: protocol_scheme(scheme)->0,
                    app_name: trim(app_name),
                })
                &&& forall|j: int|
                    0 <= j < c.protocol_rules.len() ==> #[trigger] out.protocol_rules[j] == c.protocol_rules[j]
            },
        },
{
}

/// Adds (`index` is `None`) or replaces (at `index`) a protocol rule; on an error the
/// configuration is left unchanged.
pub fn save_protocol_rule(config: &mut Config, index: Option<usize>, scheme: &str, app_name: &str) -> (r:
    Result<(), RuleEditError>)
    ensures
        match protocol_rule_saved(old(config)@, index, scheme@, app_name@) {
            Ok(c) => r is Ok && final(config)@ == c,
            Err(e) => r == Err::<(), RuleEditError>(e) && final(config)@ == old(config)@,
        },
{
    let normalized = match normalize_protocol_scheme(scheme) {
        Some(s) => s,
        None => {
            return Err(RuleEditError::InvalidScheme);
        },
    };
    let app_name = string_from(&trim_chars(&chars_of(app_name)));
    if !custom_app_exists(config, app_name.as_str()) {
        return Err(RuleEditError::UnknownCustomApp);
    }
    if protocol_rule_exists(config, normalized.as_str(), app_name.as_str(), index) {
        return Err(RuleEditError::DuplicateProtocolRule);
    }
    let ghost start = config@;
    let rule = ProtocolRule { scheme: normalized, app_name };
    match index {
        Some(i) => {
            if i < config.protocol_rules.len() {
                let _old_rule = config.protocol_rules.remove(i);
                config.protocol_rules.insert(i, rule);
                proof {
                    assert(config@ =~= (ConfigView {
                        protocol_rules: start.protocol_rules.update(i as int, rule@),
                        ..start
                    }));
                }
                Ok(())
            } else {
                Err(RuleEditError::MissingProtocolRule)
            }
        },
        None => {
            config.protocol_rules.push(rule);
            proof {
                assert(config@ =~= (ConfigView { protocol_rules: start.protocol_rules.push(rule@), ..start }));
            }
            Ok(())
        },
    }
}

/// The domain rules that do not name the app `name` (up to ASCII case), in order.
pub open spec fn domain_rules_without(rules: Seq<DomainRuleView>, name: Seq<char>) -> Seq<DomainRuleView>
    decreases rules.len(),
{
    if rules.len() == 0 {
        rules
    } else if eq_ignore_case(rules.last().app_name, name) {
        domain_rules_without(rules.drop_last(), name)
    } else {
        domain_rules_without(rules.drop_last(), name).push(rules.last())
    }
}

/// The protocol rules that do not name the app `name` (up to ASCII case), in order.
pub open spec fn protocol_rules_without(rules: Seq<ProtocolRuleView>, name: Seq<char>) -> Seq<
    ProtocolRuleView,
>
    decreases rules.len(),
{
    if rules.len() == 0 {
        rules
    } else if eq_ignore_case(rules.last().app_name, name) {
        protocol_rules_without(rules.drop_last(), name)
    } else {
        protocol_rules_without(rules.drop_last(), name).push(rules.last())
    }
}

/// What deleting the custom app at `index` does: the app is removed together with every rule
/// that names it.
pub open spec fn custom_app_deleted(c: ConfigView, index: int) -> ConfigView {
    let name = c.custom_apps[index].name;
    ConfigView {
        custom_apps: c.custom_apps.remove(index),
        domain_rules: domain_rules_without(c.domain_rules, name),
        protocol_rules: protocol_rules_without(c.protocol_rules, name),
        ..c
    }
}

/// Deletes the custom app at `index` and the rules that name it; `false`, with nothing changed,
/// where there is no app at `index`.
pub fn delete_custom_app(config: &mut Config, index: usize) -> (deleted: bool)
    ensures
        deleted == (index < old(config)@.custom_apps.len()),
        deleted ==> final(config)@ == custom_app_deleted(old(config)@, index as int),
        !deleted ==> final(config)@ == old(config)@,
{
    if index >= config.custom_apps.len() {
        return false;
    }
    let ghost start = config@;
    let removed = config.custom_apps.remove(index);
    let name = removed.name;
    proof {
        assert(name@ == start.custom_apps[index as int].name);
        assert(apps_view(config.custom_apps@) =~= start.custom_apps.remove(index as int));
    }
    let mut kept: Vec<DomainRule> = Vec::new();
    let mut rules: Vec<DomainRule> = Vec::new();
    core::mem::swap(&mut rules, &mut config.domain_rules);
    let ghost drules = domain_rules_view(rules@);
    let ghost mut i: int = 0;
    proof {
        assert(drules.take(0) =~= Seq::<DomainRuleView>::empty());
    }
    while rules.len() > 0
        invariant
            0 <= i <= drules.len(),
            domain_rules_view(rules@) == drules.skip(i as int),
            domain_rules_view(kept@) == domain_rules_without(drules.take(i as int), name@),
        decreases rules@.len(),
    {
        let ghost old_rules = rules@;
        let rule = rules.remove(0);
        proof {
            assert(domain_rules_view(old_rules).len() == old_rules.len());
            assert(domain_rules_view(old_rules)[0] == rule@);
            assert(drules.skip(i as int)[0] == drules[i as int]);
            assert(rule@ == drules[i as int]);
            assert(rules@ =~= old_rules.subrange(1, old_rules.len() as int));
            assert(domain_rules_view(rules@) =~= domain_rules_view(old_rules).subrange(1, old_rules.len() as int));
            assert(domain_rules_view(rules@) =~= drules.skip(i + 1));
            assert(drules.take(i + 1).drop_last() =~= drules.take(i as int));
        }
        if !eq_ignore_ascii_case(rule.app_name.as_str(), name.as_str()) {
            let ghost before = kept@;
            kept.push(rule);
            proof {
                assert(domain_rules_view(kept@) =~= domain_rules_view(before).push(drules[i as int]));
            }
        }
        proof {
            i = i + 1;
        }
    }
    proof {
        assert(drules.take(i as int) =~= drules);
    }
    config.domain_rules = kept;
    let mut kept_p: Vec<ProtocolRule> = Vec::new();
    let mut prules_vec: Vec<ProtocolRule> = Vec::new();
    core::mem::swap(&mut prules_vec, &mut config.protocol_rules);
    let ghost prules = protocol_rules_view(prules_vec@);
    let ghost mut j: int = 0;
    proof {
        assert(prules.take(0) =~= Seq::<ProtocolRuleView>::empty());
    }
    while prules_vec.len() > 0
        invariant
            0 <= j <= prules.len(),
            protocol_rules_view(prules_vec@) == prules.skip(j as int),
            protocol_rules_view(kept_p@) == protocol_rules_without(prules.take(j as int), name@),
        decreases prules_vec@.len(),
    {
        let ghost old_rules = prules_vec@;
        let rule = prules_vec.remove(0);
        proof {
            assert(protocol_rules_view(old_rules).len() == old_rules.len());
            assert(protocol_rules_view(old_rules)[0] == rule@);
            assert(prules.skip(j as int)[0] == prules[j as int]);
            assert(rule@ == prules[j as int]);
            assert(prules_vec@ =~= old_rules.subrange(1, old_rules.len() as int));
            assert(protocol_rules_view(prules_vec@) =~= protocol_rules_view(old_rules).subrange(1, old_rules.len() as int));
            assert(protocol_rules_view(prules_vec@) =~= prules.skip(j + 1));
            assert(prules.take(j + 1).drop_last() =~= prules.take(j as int));
        }
        if !eq_ignore_ascii_case(rule.app_name.as_str(), name.as_str()) {
            let ghost before = kept_p@;
            kept_p.push(rule);
            proof {
                assert(protocol_rules_view(kept_p@) =~= protocol_rules_view(before).push(prules[j as int]));
            }
        }
        proof {
            j = j + 1;
        }
    }
    proof {
        assert(prules.take(j as int) =~= prules);
    }
    config.protocol_rules = kept_p;
    proof {
        assert(config@ =~= custom_app_deleted(start, index as int));
    }
    true
}

/// Deletes the domain rule at `index`; `false`, with nothing changed, where there is none.
pub fn delete_domain_rule(config: &mut Config, index: usize) -> (deleted: bool)
    ensures
        deleted == (index < old(config)@.domain_rules.len()),
        deleted ==> final(config)@ == (ConfigView {
            domain_rules: old(config)@.domain_rules.remove(index as int),
            ..old(config)@
        }),
        !deleted ==> final(config)@ == old(config)@,
{
    if index >= config.domain_rules.len() {
        return false;
    }
    let ghost start = config@;
    let _removed = config.domain_rules.remove(index);
    proof {
        assert(config@ =~= (ConfigView { domain_rules: start.domain_rules.remove(index as int), ..start }));
    }
    true
}

/// Deletes the protocol rule at `index`; `false`, with nothing changed, where there is none.
pub fn delete_protocol_rule(config: &mut Config, index: usize) -> (deleted: bool)
    ensures
        deleted == (index < old(config)@.protocol_rules.len()),
        deleted ==> final(config)@ == (ConfigView {
            protocol_rules: old(config)@.protocol_rules.remove(index as int),
            ..old(config)@
        }),
        !deleted ==> final(config)@ == old(config)@,
{
    if index >= config.protocol_rules.len() {
        return false;
    }
    let ghost start = config@;
    let _removed = config.protocol_rules.remove(index);
    proof {
        assert(config@ =~= (ConfigView { protocol_rules: start.protocol_rules.remove(index as int), ..start }));
    }
    true
}

/// A value for display: `未设置` where it is blank.
pub fn display_or_empty(value: &str) -> (r: String)
    ensures
        r@ == if trim(value@).len() == 0 {
            "未设置"@
        } else {
            value@
        },
{
    if crate::text::is_blank(value) {
        "未设置".to_owned()
    } else {
        value.to_owned()
    }
}

/// No two custom apps have the same name up to ASCII case.
pub open spec fn distinct_app_names(apps: Seq<CustomAppView>) -> bool {
    forall|i: int, j: int|
        0 <= i < apps.len() && 0 <= j < apps.len() && i != j ==> !eq_ignore_case(
            #[trigger] apps[i].name,
            #[trigger] apps[j].name,
        )
}

/// Every domain and protocol rule names an existing custom app.
pub open spec fn rules_name_apps(c: ConfigView) -> bool {
    &&& forall|i: int| 0 <= i < c.domain_rules.len() ==> app_named(c.custom_apps, #[trigger] c.domain_rules[i].app_name)
    &&& forall|i: int| 0 <= i < c.protocol_rules.len() ==> app_named(c.custom_apps, #[trigger] c.protocol_rules[i].app_name)
}

/// The configuration is consistent: app names are distinct and every rule names an app.
pub open spec fn consistent_rules(c: ConfigView) -> bool {
    distinct_app_names(c.custom_apps) && rules_name_apps(c)
}

/// Law: saving a custom app keeps the configuration consistent: the names stay distinct up to
/// ASCII case, and a renamed app's rules follow it to its new name.
pub proof fn lemma_save_custom_app_consistent(
    c: ConfigView,
    index: Option<usize>,
    name: Seq<char>,
    executable: Seq<char>,
    args_template: Seq<char>,
)
    requires
        consistent_rules(c),
        custom_app_saved(c, index, name, executable, args_template) is Ok,
    ensures
        consistent_rules(custom_app_saved(c, index, name, executable, args_template)->Ok_0),
{
    let n = trim(name);
    crate::text::lemma_trim_idempotent(name);
    let app = CustomAppView { name: n, executable: trim(executable), args_template: trim(args_template) };
    let c2 = custom_app_saved(c, index, name, executable, args_template)->Ok_0;
    assert(!other_app_named(c.custom_apps, n, index));
    match index {
        None => {
            let apps = c.custom_apps.push(app);
            assert(c2.custom_apps == apps);
            assert forall|i: int, j: int| 0 <= i < apps.len() && 0 <= j < apps.len() && i != j implies !eq_ignore_case(#[trigger] apps[i].name, #[trigger] apps[j].name) by {
                if i < c.custom_apps.len() && j < c.custom_apps.len() {
                    assert(!eq_ignore_case(c.custom_apps[i].name, c.custom_apps[j].name));
                } else if i < c.custom_apps.len() {
                    assert(!eq_ignore_case(c.custom_apps[i].name, n));
                } else {
                    assert(!eq_ignore_case(c.custom_apps[j].name, n));
                }
            }
            assert forall|i: int| 0 <= i < c2.domain_rules.len() implies app_named(c2.custom_apps, #[trigger] c2.domain_rules[i].app_name) by {
                let r = c.domain_rules[i];
                assert(app_named(c.custom_apps, r.app_name));
                let j = choose|j: int| 0 <= j < c.custom_apps.len() && eq_ignore_case(#[trigger] c.custom_apps[j].name, r.app_name);
                assert(apps[j] == c.custom_apps[j]);
            }
            assert forall|i: int| 0 <= i < c2.protocol_rules.len() implies app_named(c2.custom_apps, #[trigger] c2.protocol_rules[i].app_name) by {
                let r = c.protocol_rules[i];
                assert(app_named(c.custom_apps, r.app_name));
                let j = choose|j: int| 0 <= j < c.custom_apps.len() && eq_ignore_case(#[trigger] c.custom_apps[j].name, r.app_name);
                assert(apps[j] == c.custom_apps[j]);
            }
        },
        Some(ix) => {
            let k = ix as int;
            let old_name = c.custom_apps[k].name;
            let apps = c.custom_apps.update(k, app);
            assert(c2.custom_apps == apps);
            assert forall|i: int, j: int| 0 <= i < apps.len() && 0 <= j < apps.len() && i != j implies !eq_ignore_case(#[trigger] apps[i].name, #[trigger] apps[j].name) by {
                if i != k && j != k {
                    assert(!eq_ignore_case(c.custom_apps[i].name, c.custom_apps[j].name));
                } else if i == k {
                    assert(is_other(j, index));
                    assert(!eq_ignore_case(c.custom_apps[j].name, n));
                } else {
                    assert(is_other(i, index));
                    assert(!eq_ignore_case(c.custom_apps[i].name, n));
                }
            }
            assert(eq_ignore_case(apps[k].name, n));
            assert forall|i: int| 0 <= i < c2.domain_rules.len() implies app_named(c2.custom_apps, #[trigger] c2.domain_rules[i].app_name) by {
                let r = c.domain_rules[i];
                if eq_ignore_case(r.app_name, old_name) {
                    assert(c2.domain_rules[i].app_name == n);
                    assert(eq_ignore_case(apps[k].name, c2.domain_rules[i].app_name));
                } else {
                    assert(c2.domain_rules[i] == r);
                    assert(app_named(c.custom_apps, r.app_name));
                    let j = choose|j: int| 0 <= j < c.custom_apps.len() && eq_ignore_case(#[trigger] c.custom_apps[j].name, r.app_name);
                    assert(j != k);
                    assert(apps[j] == c.custom_apps[j]);
                }
            }
            assert forall|i: int| 0 <= i < c2.protocol_rules.len() implies app_named(c2.custom_apps, #[trigger] c2.protocol_rules[i].app_name) by {
                let r = c.protocol_rules[i];
                if eq_ignore_case(r.app_name, old_name) {
                    assert(c2.protocol_rules[i].app_name == n);
                    assert(eq_ignore_case(apps[k].name, c2.protocol_rules[i].app_name));
                } else {
                    assert(c2.protocol_rules[i] == r);
                    assert(app_named(c.custom_apps, r.app_name));
                    let j = choose|j: int| 0 <= j < c.custom_apps.len() && eq_ignore_case(#[trigger] c.custom_apps[j].name, r.app_name);
                    assert(j != k);
                    assert(apps[j] == c.custom_apps[j]);
                }
            }
        },
    }
}

/// Law: saving a domain rule keeps the configuration consistent: the rule names an existing
/// app.
pub proof fn lemma_save_domain_rule_consistent(
    c: ConfigView,
    index: Option<usize>,
    pattern: Seq<char>,
    app_name: Seq<char>,
)
    requires
        consistent_rules(c),
        domain_rule_saved(c, index, pattern, app_name) is Ok,
    ensures
        consistent_rules(domain_rule_saved(c, index, pattern, app_name)->Ok_0),
{
    crate::text::lemma_trim_idempotent(app_name);
    let c2 = domain_rule_saved(c, index, pattern, app_name)->Ok_0;
    assert(app_named(c.custom_apps, trim(app_name)));
    assert forall|i: int| 0 <= i < c2.domain_rules.len() implies app_named(c2.custom_apps, #[trigger] c2.domain_rules[i].app_name) by {
        if c2.domain_rules[i].app_name != trim(app_name) {
            assert(c2.domain_rules[i] == c.domain_rules[i]);
        }
    }
}

/// Law: saving a protocol rule keeps the configuration consistent: the rule names an existing
/// app.
pub proof fn lemma_save_protocol_rule_consistent(
    c: ConfigView,
    index: Option<usize>,
    scheme: Seq<char>,
    app_name: Seq<char>,
)
    requires
        consistent_rules(c),
        protocol_rule_saved(c, index, scheme, app_name) is Ok,
    ensures
        consistent_rules(protocol_rule_saved(c, index, scheme, app_name)->Ok_0),
{
    crate::text::lemma_trim_idempotent(app_name);
    let c2 = protocol_rule_saved(c, index, scheme, app_name)->Ok_0;
    assert(app_named(c.custom_apps, trim(app_name)));
    assert forall|i: int| 0 <= i < c2.protocol_rules.len() implies app_named(c2.custom_apps, #[trigger] c2.protocol_rules[i].app_name) by {
        if c2.protocol_rules[i].app_name != trim(app_name) {
            assert(c2.protocol_rules[i] == c.protocol_rules[i]);
        }
    }
}

proof fn lemma_domain_rules_without_members(rules: Seq<DomainRuleView>, name: Seq<char>)
    ensures
        forall|k: int|
            0 <= k < domain_rules_without(rules, name).len() ==> rules.contains(
                #[trigger] domain_rules_without(rules, name)[k],
            ) && !eq_ignore_case(domain_rules_without(rules, name)[k].app_name, name),
    decreases rules.len(),
{
    if rules.len() > 0 {
        lemma_domain_rules_without_members(rules.drop_last(), name);
        let r = domain_rules_without(rules.drop_last(), name);
        assert forall|k: int| 0 <= k < r.len() implies rules.contains(#[trigger] r[k]) by {
            assert(rules.drop_last().contains(r[k]));
            let j = choose|j: int| 0 <= j < rules.drop_last().len() && rules.drop_last()[j] == r[k];
            assert(rules[j] == r[k]);
        }
        assert(rules[rules.len() - 1] == rules.last());
    }
}

proof fn lemma_protocol_rules_without_members(rules: Seq<ProtocolRuleView>, name: Seq<char>)
    ensures
        forall|k: int|
            0 <= k < protocol_rules_without(rules, name).len() ==> rules.contains(
                #[trigger] protocol_rules_without(rules, name)[k],
            ) && !eq_ignore_case(protocol_rules_without(rules, name)[k].app_name, name),
    decreases rules.len(),
{
    if rules.len() > 0 {
        lemma_protocol_rules_without_members(rules.drop_last(), name);
        let r = protocol_rules_without(rules.drop_last(), name);
        assert forall|k: int| 0 <= k < r.len() implies rules.contains(#[trigger] r[k]) by {
            assert(rules.drop_last().contains(r[k]));
            let j = choose|j: int| 0 <= j < rules.drop_last().len() && rules.drop_last()[j] == r[k];
            assert(rules[j] == r[k]);
        }
        assert(rules[rules.len() - 1] == rules.last());
    }
}

proof fn lemma_named_after_remove(apps: Seq<CustomAppView>, index: int, name: Seq<char>)
    requires
        0 <= index < apps.len(),
        app_named(apps, name),
        !eq_ignore_case(apps[index].name, name),
    ensures
        app_named(apps.remove(index), name),
{
    let j = choose|j: int| 0 <= j < apps.len() && eq_ignore_case(#[trigger] apps[j].name, name);
    assert(j != index);
    if j < index {
        assert(apps.remove(index)[j] == apps[j]);
    } else {
        assert(apps.remove(index)[j - 1] == apps[j]);
    }
}

/// Law: deleting a custom app keeps the configuration consistent: no rule is left that names
/// the deleted app, and every remaining rule still names an app.
pub proof fn lemma_delete_custom_app_consistent(c: ConfigView, index: int)
    requires
        consistent_rules(c),
        0 <= index < c.custom_apps.len(),
    ensures
        consistent_rules(custom_app_deleted(c, index)),
        forall|i: int|
            0 <= i < custom_app_deleted(c, index).domain_rules.len() ==> !eq_ignore_case(
                #[trigger] custom_app_deleted(c, index).domain_rules[i].app_name,
                c.custom_apps[index].name,
            ),
        forall|i: int|
            0 <= i < custom_app_deleted(c, index).protocol_rules.len() ==> !eq_ignore_case(
                #[trigger] custom_app_deleted(c, index).protocol_rules[i].app_name,
                c.custom_apps[index].name,
            ),
{
    let name = c.custom_apps[index].name;
    let c2 = custom_app_deleted(c, index);
    let apps = c.custom_apps.remove(index);
    lemma_domain_rules_without_members(c.domain_rules, name);
    lemma_protocol_rules_without_members(c.protocol_rules, name);
    assert forall|i: int, j: int| 0 <= i < apps.len() && 0 <= j < apps.len() && i != j implies !eq_ignore_case(#[trigger] apps[i].name, #[trigger] apps[j].name) by {
        let oi = if i < index { i } else { i + 1 };
        let oj = if j < index { j } else { j + 1 };
        assert(apps[i] == c.custom_apps[oi]);
        assert(apps[j] == c.custom_apps[oj]);
    }
    assert forall|i: int| 0 <= i < c2.domain_rules.len() implies app_named(c2.custom_apps, #[trigger] c2.domain_rules[i].app_name) by {
        let r = c2.domain_rules[i];
        assert(c.domain_rules.contains(r));
        let j = choose|j: int| 0 <= j < c.domain_rules.len() && c.domain_rules[j] == r;
        assert(app_named(c.custom_apps, c.domain_rules[j].app_name));
        lemma_named_after_remove(c.custom_apps, index, r.app_name);
    }
    assert forall|i: int| 0 <= i < c2.protocol_rules.len() implies app_named(c2.custom_apps, #[trigger] c2.protocol_rules[i].app_name) by {
        let r = c2.protocol_rules[i];
        assert(c.protocol_rules.contains(r));
        let j = choose|j: int| 0 <= j < c.protocol_rules.len() && c.protocol_rules[j] == r;
        assert(app_named(c.custom_apps, c.protocol_rules[j].app_name));
        lemma_named_after_remove(c.custom_apps, index, r.app_name);
    }
}

/// Law: deleting a domain or protocol rule keeps the configuration consistent.
pub proof fn lemma_delete_rule_consistent(c: ConfigView, index: int)
    requires
        consistent_rules(c),
    ensures
        0 <= index < c.domain_rules.len() ==> consistent_rules(
            ConfigView { domain_rules: c.domain_rules.remove(index), ..c },
        ),
        0 <= index < c.protocol_rules.len() ==> consistent_rules(
            ConfigView { protocol_rules: c.protocol_rules.remove(index), ..c },
        ),
{
    if 0 <= index < c.domain_rules.len() {
        let rules = c.domain_rules.remove(index);
        assert forall|i: int| 0 <= i < rules.len() implies app_named(c.custom_apps, #[trigger] rules[i].app_name) by {
            if i < index {
                assert(rules[i] == c.domain_rules[i]);
            } else {
                assert(rules[i] == c.domain_rules[i + 1]);
            }
        }
    }
    if 0 <= index < c.protocol_rules.len() {
        let rules = c.protocol_rules.remove(index);
        assert forall|i: int| 0 <= i < rules.len() implies app_named(c.custom_apps, #[trigger] rules[i].app_name) by {
            if i < index {
                assert(rules[i] == c.protocol_rules[i]);
            } else {
                assert(rules[i] == c.protocol_rules[i + 1]);
            }
        }
    }
}

} // verus!
