//! What the windows show and decide apart from drawing: titles and labels, the search filter of
//! the history and favorites lists, the status after recording or toggling a URL, and the
//! fields an editor window starts with.
use vstd::prelude::*;
use crate::models::{
    CandidateKind, Config, ConfigView, CustomApp, CustomAppView, DomainRule, DomainRuleView,
    FavoriteEntry, HistoryEntry, ProtocolRule, ProtocolRuleView, favorites_view, history_view,
};
use crate::opening_rules::OpeningRuleEditor;
use crate::storage::{
    can_count_visit, can_record_visit, favorite_toggled, history_keys, is_favorite_url,
    record_history, toggle_favorite, visited,
};
use crate::sorting::is_stable_sort;
use crate::text::{
    chars_contain, chars_of, contains, is_blank, join_texts, lower, lower_chars, opt_text,
    string_from, trim, trim_chars,
};
use crate::windows_integration::RegistrationState;

verus! {

/// The two kinds of window the program opens.
#[derive(Debug, Clone, Copy, PartialEq, Eq, Structural)]
pub enum AppMode {
    MainWindow,
    InterceptWindow,
}

impl AppMode {
    /// The title of a window of this kind.
    pub fn window_title(self) -> (r: &'static str)
        ensures
            r@ == match self {
                AppMode::MainWindow => "Link Interceptor"@,
                AppMode::InterceptWindow => "拦截 URL"@,
            },
    {
        match self {
            AppMode::MainWindow => "Link Interceptor",
            AppMode::InterceptWindow => "拦截 URL",
        }
    }
}

/// The label shown beside a candidate of each kind.
pub fn candidate_kind_label(kind: CandidateKind) -> (r: &'static str)
    ensures
        r@ == match kind {
            CandidateKind::Browser => "浏览器"@,
            CandidateKind::ProtocolHandler => "协议处理程序"@,
            CandidateKind::DomainApp => "域名应用"@,
            CandidateKind::ProtocolApp => "自定义应用"@,
            CandidateKind::ShellFallback => "Windows 默认处理程序"@,
        },
{
    match kind {
        CandidateKind::Browser => "浏览器",
        CandidateKind::ProtocolHandler => "协议处理程序",
        CandidateKind::DomainApp => "域名应用",
        CandidateKind::ProtocolApp => "自定义应用",
        CandidateKind::ShellFallback => "Windows 默认处理程序",
    }
}

/// The registration status line of the main window.
pub fn registration_state_label(state: RegistrationState) -> (r: &'static str)
    ensures
        r@ == match state {
            RegistrationState::NotRegistered => "状态：尚未注册为浏览器候选项"@,
            RegistrationState::Registered => "状态：已注册，但 Windows 可能尚未将其设为默认"@,
            RegistrationState::PossibleDefault => "状态：已注册，并且可能已被选为默认应用"@,
        },
{
    match state {
        RegistrationState::NotRegistered => "状态：尚未注册为浏览器候选项",
        RegistrationState::Registered => "状态：已注册，但 Windows 可能尚未将其设为默认",
        RegistrationState::PossibleDefault => "状态：已注册，并且可能已被选为默认应用",
    }
}

/// A URL is listed under a search: the search is empty, or occurs in the URL, both taken in
/// ASCII lower case.
pub open spec fn listed_under(url: Seq<char>, query: Seq<char>) -> bool {
    lower(query).len() == 0 || contains(lower(url), lower(query))
}

/// Law: a URL is listed under a search text exactly when the text is empty or occurs, ignoring
/// ASCII case, somewhere in the URL, its very end included; so every URL is listed under
/// itself and under each of its parts.
pub proof fn lemma_search_finds_every_occurrence(url: Seq<char>, query: Seq<char>)
    ensures
        listed_under(url, query) <==> (query.len() == 0 || exists|i: int|
            0 <= i && i + query.len() <= url.len() && #[trigger] lower(url).subrange(
                i,
                i + query.len(),
            ) == lower(query)),
        listed_under(url, url),
        forall|i: int, n: int|
            0 <= i <= n <= url.len() ==> #[trigger] listed_under(url, url.subrange(i, n)),
{
    assert(lower(url).len() == url.len());
    assert(lower(query).len() == query.len());
    if listed_under(url, query) && query.len() > 0 {
        let i = choose|i: int| crate::text::occurs_at(lower(url), lower(query), i);
        assert(lower(url).subrange(i, i + query.len()) == lower(query));
    }
    if query.len() > 0 && exists|i: int|
        0 <= i && i + query.len() <= url.len() && #[trigger] lower(url).subrange(i, i + query.len())
            == lower(query) {
        let i = choose|i: int|
            0 <= i && i + query.len() <= url.len() && #[trigger] lower(url).subrange(i, i + query.len())
                == lower(query);
        assert(crate::text::occurs_at(lower(url), lower(query), i));
    }
    if url.len() > 0 {
        assert(lower(url).subrange(0, url.len() as int) =~= lower(url));
        assert(crate::text::occurs_at(lower(url), lower(url), 0));
    }
    assert forall|i: int, n: int| 0 <= i <= n <= url.len() implies #[trigger] listed_under(
        url,
        url.subrange(i, n),
    ) by {
        let q = url.subrange(i, n);
        if n > i {
            assert(lower(url).subrange(i, n) =~= lower(q));
            assert(crate::text::occurs_at(lower(url), lower(q), i));
        } else {
            assert(lower(q).len() == 0);
        }
    }
}

/// Whether a history or favorites entry for `url` is listed under the search `query`.
pub fn matches_query(url: &str, query: &str) -> (r: bool)
    ensures
        r == listed_under(url@, query@),
{
    let q = lower_chars(&chars_of(query));
    if q.len() == 0 {
        return true;
    }
    let u = lower_chars(&chars_of(url));
    chars_contain(&u, &q)
}

/// Records a visit of the trimmed `url` in the history, unless it is blank; `true` where it was
/// recorded.
pub fn record_visit(history: &mut Vec<HistoryEntry>, url: &str) -> (recorded: bool)
    requires
        can_count_visit(history_view(old(history)@), trim(url@)),
    ensures
        recorded == (trim(url@).len() > 0),
        !recorded ==> final(history)@ == old(history)@,
        recorded ==> exists|now: crate::models::Timestamp|
            is_stable_sort(
                visited(history_view(old(history)@), trim(url@), now),
                history_keys(visited(history_view(old(history)@), trim(url@), now)),
                history_view(final(history)@),
            ),
{
    let trimmed = string_from(&trim_chars(&chars_of(url)));
    if trimmed.as_str().is_empty() {
        return false;
    }
    record_history(history, trimmed.as_str());
    true
}

/// Whether `record_visit` can count a visit of `url` (trimmed): its entry, where there is one,
/// has not reached the largest count.
pub fn visit_countable(history: &Vec<HistoryEntry>, url: &str) -> (r: bool)
    ensures
        r == can_count_visit(history_view(history@), trim(url@)),
{
    let trimmed = string_from(&trim_chars(&chars_of(url)));
    can_record_visit(history, trimmed.as_str())
}

/// The status after an attempt to open `url` with the candidate named `name`, and whether the
/// URL was opened: a blank URL is not opened; otherwise `failure` holds the error's text where
/// the launch failed.
pub open spec fn open_status_of(url: Seq<char>, name: Seq<char>, failure: Option<Seq<char>>) -> (
    Seq<char>,
    bool,
) {
    if trim(url).len() == 0 {
        ("没有可打开的 URL"@, false)
    } else {
        match failure {
            None => ("已通过 "@ + name + " 打开"@, true),
            Some(e) => (name + " 打开失败："@ + e, false),
        }
    }
}

/// The status after an attempt to open `url` with the candidate named `name` (see
/// `open_status_of`).
pub fn open_status(url: &str, name: &str, failure: Option<String>) -> (r: (String, bool))
    ensures
        (r.0@, r.1) == open_status_of(url@, name@, opt_text(failure)),
{
    if is_blank(url) {
        return ("没有可打开的 URL".to_owned(), false);
    }
    match failure {
        None => {
            let head = join_texts("已通过 ", name);
            (join_texts(head.as_str(), " 打开"), true)
        },
        Some(e) => {
            let head = join_texts(name, " 打开失败：");
            (join_texts(head.as_str(), e.as_str()), false)
        },
    }
}

/// The status after toggling a favorite.
pub open spec fn favorite_status(url: Seq<char>, was_favorite: bool) -> Seq<char> {
    if trim(url).len() == 0 {
        "没有可收藏的 URL"@
    } else if was_favorite {
        "已从收藏移除"@
    } else {
        "已添加到收藏"@
    }
}

/// Toggles the trimmed `url` as a favorite, unless it is blank, and says what happened.
pub fn toggle_favorite_url(favorites: &mut Vec<FavoriteEntry>, url: &str) -> (status: String)
    ensures
        status@ == favorite_status(url@, is_favorite_url(favorites_view(old(favorites)@), trim(url@))),
        trim(url@).len() == 0 ==> final(favorites)@ == old(favorites)@,
        trim(url@).len() > 0 ==> exists|now: crate::models::Timestamp, added: bool|
            #[trigger] favorite_toggled(
                favorites_view(old(favorites)@),
                trim(url@),
                now,
                favorites_view(final(favorites)@),
                added,
            ),
{
    let trimmed = string_from(&trim_chars(&chars_of(url)));
    if trimmed.as_str().is_empty() {
        return "没有可收藏的 URL".to_owned();
    }
    let added = toggle_favorite(favorites, trimmed.as_str());
    if added {
        "已添加到收藏".to_owned()
    } else {
        "已从收藏移除".to_owned()
    }
}

/// The fields an editor window starts with.
pub struct EditorForm {
    pub custom_name: String,
    pub custom_executable: String,
    pub custom_args: String,
    pub domain_pattern: String,
    pub domain_app_name: String,
    pub protocol_scheme: String,
    pub protocol_app_name: String,
}

/// The fields an editor window starts with, as texts: in `name, executable, args, pattern,
/// domain app, scheme, protocol app` order.
pub open spec fn editor_form_view(f: EditorForm) -> Seq<Seq<char>> {
    seq![
        f.custom_name@,
        f.custom_executable@,
        f.custom_args@,
        f.domain_pattern@,
        f.domain_app_name@,
        f.protocol_scheme@,
        f.protocol_app_name@,
    ]
}

/// The fields an editor starts with: empty, with the argument template `{url}` and both rule
/// editors naming the first custom app (if any); when editing an existing app or rule, its
/// values instead.
pub open spec fn initial_form(c: crate::models::ConfigView, editor: OpeningRuleEditor) -> Seq<Seq<char>> {
    let first = if c.custom_apps.len() > 0 {
        c.custom_apps[0].name
    } else {
        Seq::empty()
    };
    let blank = seq![Seq::empty(), Seq::empty(), "{url}"@, Seq::empty(), first, Seq::empty(), first];
    match editor {
        OpeningRuleEditor::EditCustomApp(i) => if i < c.custom_apps.len() {
            blank.update(0, c.custom_apps[i as int].name).update(1, c.custom_apps[i as int].executable).update(
                2,
                c.custom_apps[i as int].args_template,
            )
        } else {
            blank
        },
        OpeningRuleEditor::EditDomainRule(i) => if i < c.domain_rules.len() {
            blank.update(3, c.domain_rules[i as int].pattern).update(4, c.domain_rules[i as int].app_name)
        } else {
            blank
        },
        OpeningRuleEditor::EditProtocolRule(i) => if i < c.protocol_rules.len() {
            blank.update(5, c.protocol_rules[i as int].scheme).update(6, c.protocol_rules[i as int].app_name)
        } else {
            blank
        },
        _ => blank,
    }
}

/// The fields the editor `editor` starts with, for `config`.
pub fn editor_form(config: &Config, editor: OpeningRuleEditor) -> (r: EditorForm)
    ensures
        editor_form_view(r) == initial_form(config@, editor),
{
    let first = if config.custom_apps.len() > 0 {
        config.custom_apps[0].name.clone()
    } else {
        String::new()
    };
    let mut form = EditorForm {
        custom_name: String::new(),
        custom_executable: String::new(),
        custom_args: "{url}".to_owned(),
        domain_pattern: String::new(),
        domain_app_name: first.clone(),
        protocol_scheme: String::new(),
        protocol_app_name: first,
    };
    match editor {
        OpeningRuleEditor::EditCustomApp(index) => {
            if index < config.custom_apps.len() {
                let app = &config.custom_apps[index];
                form.custom_name = app.name.clone();
                form.custom_executable = app.executable.clone();
                form.custom_args = app.args_template.clone();
            }
        },
        OpeningRuleEditor::EditDomainRule(index) => {
            if index < config.domain_rules.len() {
                let rule = &config.domain_rules[index];
                form.domain_pattern = rule.pattern.clone();
                form.domain_app_name = rule.app_name.clone();
            }
        },
        OpeningRuleEditor::EditProtocolRule(index) => {
            if index < config.protocol_rules.len() {
                let rule = &config.protocol_rules[index];
                form.protocol_scheme = rule.scheme.clone();
                form.protocol_app_name = rule.app_name.clone();
            }
        },
        _ => {},
    }
    proof {
        assert(editor_form_view(form) =~= initial_form(config@, editor));
    }
    form
}

/// Adds a custom app from the settings form: nothing where the name is blank; otherwise the app,
/// as typed, at the end of the list.
pub fn add_custom_app(config: &mut Config, name: String, executable: String, args_template: String) -> (added:
    bool)
    ensures
        added == (trim(name@).len() > 0),
        added ==> final(config)@ == (ConfigView {
            custom_apps: old(config)@.custom_apps.push(
                CustomAppView { name: name@, executable: executable@, args_template: args_template@ },
            ),
            ..old(config)@
        }),
        !added ==> final(config)@ == old(config)@,
{
    if is_blank(name.as_str()) {
        return false;
    }
    let ghost start = config@;
    let app = CustomApp { name, executable, args_template };
    config.custom_apps.push(app);
    proof {
        assert(config@ =~= (ConfigView { custom_apps: start.custom_apps.push(app@), ..start }));
    }
    true
}

/// Replaces the custom app at `index` with the edited fields, as typed; nothing where there is
/// no app at `index`.
pub fn update_custom_app(
    config: &mut Config,
    index: usize,
    name: String,
    executable: String,
    args_template: String,
)
    ensures
        index < old(config)@.custom_apps.len() ==> final(config)@ == (ConfigView {
            custom_apps: old(config)@.custom_apps.update(
                index as int,
                CustomAppView { name: name@, executable: executable@, args_template: args_template@ },
            ),
            ..old(config)@
        }),
        index >= old(config)@.custom_apps.len() ==> final(config)@ == old(config)@,
{
    if index < config.custom_apps.len() {
        let ghost start = config@;
        let app = CustomApp { name, executable, args_template };
        config.custom_apps.set(index, app);
        proof {
            assert(config@ =~= (ConfigView {
                custom_apps: start.custom_apps.update(index as int, app@),
                ..start
            }));
        }
    }
}

/// Removes the custom app at `index` (the rules that name it stay); nothing where there is no
/// app at `index`.
pub fn remove_custom_app(config: &mut Config, index: usize)
    ensures
        index < old(config)@.custom_apps.len() ==> final(config)@ == (ConfigView {
            custom_apps: old(config)@.custom_apps.remove(index as int),
            ..old(config)@
        }),
        index >= old(config)@.custom_apps.len() ==> final(config)@ == old(config)@,
{
    if index < config.custom_apps.len() {
        let ghost start = config@;
        let _removed = config.custom_apps.remove(index);
        proof {
            assert(config@ =~= (ConfigView { custom_apps: start.custom_apps.remove(index as int), ..start }));
        }
    }
}

/// Adds a domain rule from the settings form: nothing where the pattern is blank; otherwise the
/// rule, as typed, at the end of the list.
pub fn add_domain_rule(config: &mut Config, pattern: String, app_name: String) -> (added: bool)
    ensures
        added == (trim(pattern@).len() > 0),
        added ==> final(config)@ == (ConfigView {
            domain_rules: old(config)@.domain_rules.push(
                DomainRuleView { pattern: pattern@, app_name: app_name@ },
            ),
            ..old(config)@
        }),
        !added ==> final(config)@ == old(config)@,
{
    if is_blank(pattern.as_str()) {
        return false;
    }
    let ghost start = config@;
    let rule = DomainRule { pattern, app_name };
    config.domain_rules.push(rule);
    proof {
        assert(config@ =~= (ConfigView { domain_rules: start.domain_rules.push(rule@), ..start }));
    }
    true
}

/// Replaces the domain rule at `index` with the edited fields, as typed; nothing where there is
/// no rule at `index`.
pub fn update_domain_rule(config: &mut Config, index: usize, pattern: String, app_name: String)
    ensures
        index < old(config)@.domain_rules.len() ==> final(config)@ == (ConfigView {
            domain_rules: old(config)@.domain_rules.update(
                index as int,
                DomainRuleView { pattern: pattern@, app_name: app_name@ },
            ),
            ..old(config)@
        }),
        index >= old(config)@.domain_rules.len() ==> final(config)@ == old(config)@,
{
    if index < config.domain_rules.len() {
        let ghost start = config@;
        let rule = DomainRule { pattern, app_name };
        config.domain_rules.set(index, rule);
        proof {
            assert(config@ =~= (ConfigView {
                domain_rules: start.domain_rules.update(index as int, rule@),
                ..start
            }));
        }
    }
}

/// Adds a protocol rule from the settings form: nothing where the scheme is blank; otherwise
/// the rule, as typed, at the end of the list.
pub fn add_protocol_rule(config: &mut Config, scheme: String, app_name: String) -> (added: bool)
    ensures
        added == (trim(scheme@).len() > 0),
        added ==> final(config)@ == (ConfigView {
            protocol_rules: old(config)@.protocol_rules.push(
                ProtocolRuleView { scheme: scheme@, app_name: app_name@ },
            ),
            ..old(config)@
        }),
        !added ==> final(config)@ == old(config)@,
{
    if is_blank(scheme.as_str()) {
        return false;
    }
    let ghost start = config@;
    let rule = ProtocolRule { scheme, app_name };
    config.protocol_rules.push(rule);
    proof {
        assert(config@ =~= (ConfigView { protocol_rules: start.protocol_rules.push(rule@), ..start }));
    }
    true
}

/// Replaces the protocol rule at `index` with the edited fields, as typed; nothing where there
/// is no rule at `index`.
pub fn update_protocol_rule(config: &mut Config, index: usize, scheme: String, app_name: String)
    ensures
        index < old(config)@.protocol_rules.len() ==> final(config)@ == (ConfigView {
            protocol_rules: old(config)@.protocol_rules.update(
                index as int,
                ProtocolRuleView { scheme: scheme@, app_name: app_name@ },
            ),
            ..old(config)@
        }),
        index >= old(config)@.protocol_rules.len() ==> final(config)@ == old(config)@,
{
    if index < config.protocol_rules.len() {
        let ghost start = config@;
        let rule = ProtocolRule { scheme, app_name };
        config.protocol_rules.set(index, rule);
        proof {
            assert(config@ =~= (ConfigView {
                protocol_rules: start.protocol_rules.update(index as int, rule@),
                ..start
            }));
        }
    }
}

} // verus!
