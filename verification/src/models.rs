//! The data the interceptor keeps and hands around: requests, history, favorites, the
//! configuration of custom apps and rules, and the candidates a URL can be opened with.
use vstd::prelude::*;
use crate::clock::current_time;
use crate::text::{opt_text, trim};

verus! {

/// A point in time in UTC: whole seconds since the Unix epoch and the nanoseconds past them.
/// Later instants have a greater `(seconds, nanos)` pair.
#[derive(Debug, Clone, Copy, PartialEq, Eq, Structural)]
pub struct Timestamp {
    pub seconds: i64,
    pub nanos: u32,
}

/// A URL handed to the program, with the time it arrived.
#[derive(Debug, Clone, PartialEq, Eq)]
pub struct LaunchRequest {
    pub raw_url: String,
    pub received_at: Timestamp,
}

impl LaunchRequest {
    /// A request for `raw_url` received now.
    pub fn new(raw_url: String) -> (r: Self)
        ensures
            r.raw_url == raw_url,
    {
        LaunchRequest { raw_url, received_at: current_time() }
    }
}

/// A URL seen before: when it was first and last seen and how often.
#[derive(Debug, Clone, PartialEq, Eq)]
pub struct HistoryEntry {
    pub url: String,
    pub first_seen_at: Timestamp,
    pub last_seen_at: Timestamp,
    pub open_count: u64,
}

#[verifier::ext_equal]
pub struct HistoryEntryView {
    pub url: Seq<char>,
    pub first_seen_at: Timestamp,
    pub last_seen_at: Timestamp,
    pub open_count: u64,
}

impl View for HistoryEntry {
    type V = HistoryEntryView;

    open spec fn view(&self) -> HistoryEntryView {
        HistoryEntryView {
            url: self.url@,
            first_seen_at: self.first_seen_at,
            last_seen_at: self.last_seen_at,
            open_count: self.open_count,
        }
    }
}

pub open spec fn history_view(entries: Seq<HistoryEntry>) -> Seq<HistoryEntryView> {
    entries.map_values(|e: HistoryEntry| e@)
}

impl HistoryEntry {
    /// The entry for a URL seen for the first time at `now`.
    pub fn new(url: String, now: Timestamp) -> (r: Self)
        ensures
            r.url == url,
            r.first_seen_at == now,
            r.last_seen_at == now,
            r.open_count == 1,
    {
        HistoryEntry { url, first_seen_at: now, last_seen_at: now, open_count: 1 }
    }
}

/// A URL the user marked as a favorite, with the time it was added.
#[derive(Debug, Clone, PartialEq, Eq)]
pub struct FavoriteEntry {
    pub url: String,
    pub added_at: Timestamp,
}

#[verifier::ext_equal]
pub struct FavoriteEntryView {
    pub url: Seq<char>,
    pub added_at: Timestamp,
}

impl View for FavoriteEntry {
    type V = FavoriteEntryView;

    open spec fn view(&self) -> FavoriteEntryView {
        FavoriteEntryView { url: self.url@, added_at: self.added_at }
    }
}

pub open spec fn favorites_view(entries: Seq<FavoriteEntry>) -> Seq<FavoriteEntryView> {
    entries.map_values(|e: FavoriteEntry| e@)
}

/// An application the user can open URLs with: its name, executable and argument template.
#[derive(Debug, Clone, PartialEq, Eq)]
pub struct CustomApp {
    pub name: String,
    pub executable: String,
    pub args_template: String,
}

#[verifier::ext_equal]
pub struct CustomAppView {
    pub name: Seq<char>,
    pub executable: Seq<char>,
    pub args_template: Seq<char>,
}

impl View for CustomApp {
    type V = CustomAppView;

    open spec fn view(&self) -> CustomAppView {
        CustomAppView {
            name: self.name@,
            executable: self.executable@,
            args_template: self.args_template@,
        }
    }
}

impl Default for CustomApp {
    fn default() -> (r: Self)
        ensures
            r@ == (CustomAppView {
                name: "自定义应用"@,
                executable: Seq::empty(),
                args_template: "{url}"@,
            }),
    {
        CustomApp {
            name: "自定义应用".to_owned(),
            executable: String::new(),
            args_template: "{url}".to_owned(),
        }
    }
}

/// Hosts whose root domain matches `pattern` may open with the custom app named `app_name`.
#[derive(Debug, Clone, PartialEq, Eq)]
pub struct DomainRule {
    pub pattern: String,
    pub app_name: String,
}

#[verifier::ext_equal]
pub struct DomainRuleView {
    pub pattern: Seq<char>,
    pub app_name: Seq<char>,
}

impl View for DomainRule {
    type V = DomainRuleView;

    open spec fn view(&self) -> DomainRuleView {
        DomainRuleView { pattern: self.pattern@, app_name: self.app_name@ }
    }
}

impl Default for DomainRule {
    fn default() -> (r: Self)
        ensures
            r@ == (DomainRuleView { pattern: "example.com"@, app_name: Seq::empty() }),
    {
        DomainRule { pattern: "example.com".to_owned(), app_name: String::new() }
    }
}

/// URLs of protocol `scheme` may open with the custom app named `app_name`.
#[derive(Debug, Clone, PartialEq, Eq)]
pub struct ProtocolRule {
    pub scheme: String,
    pub app_name: String,
}

#[verifier::ext_equal]
pub struct ProtocolRuleView {
    pub scheme: Seq<char>,
    pub app_name: Seq<char>,
}

impl View for ProtocolRule {
    type V = ProtocolRuleView;

    open spec fn view(&self) -> ProtocolRuleView {
        ProtocolRuleView { scheme: self.scheme@, app_name: self.app_name@ }
    }
}

impl Default for ProtocolRule {
    fn default() -> (r: Self)
        ensures
            r@ == (ProtocolRuleView { scheme: "mailto"@, app_name: Seq::empty() }),
    {
        ProtocolRule { scheme: "mailto".to_owned(), app_name: String::new() }
    }
}

/// The user's settings: window behaviour, custom apps and the rules that offer them.
#[derive(Debug, Clone, PartialEq, Eq)]
pub struct Config {
    pub bring_new_windows_to_front: bool,
    pub close_intercept_window_after_open: bool,
    pub custom_apps: Vec<CustomApp>,
    pub domain_rules: Vec<DomainRule>,
    pub protocol_rules: Vec<ProtocolRule>,
}

pub open spec fn apps_view(apps: Seq<CustomApp>) -> Seq<CustomAppView> {
    apps.map_values(|a: CustomApp| a@)
}

pub open spec fn domain_rules_view(rules: Seq<DomainRule>) -> Seq<DomainRuleView> {
    rules.map_values(|r: DomainRule| r@)
}

pub open spec fn protocol_rules_view(rules: Seq<ProtocolRule>) -> Seq<ProtocolRuleView> {
    rules.map_values(|r: ProtocolRule| r@)
}

#[verifier::ext_equal]
pub struct ConfigView {
    pub bring_new_windows_to_front: bool,
    pub close_intercept_window_after_open: bool,
    pub custom_apps: Seq<CustomAppView>,
    pub domain_rules: Seq<DomainRuleView>,
    pub protocol_rules: Seq<ProtocolRuleView>,
}

impl View for Config {
    type V = ConfigView;

    open spec fn view(&self) -> ConfigView {
        ConfigView {
            bring_new_windows_to_front: self.bring_new_windows_to_front,
            close_intercept_window_after_open: self.close_intercept_window_after_open,
            custom_apps: apps_view(self.custom_apps@),
            domain_rules: domain_rules_view(self.domain_rules@),
            protocol_rules: protocol_rules_view(self.protocol_rules@),
        }
    }
}

/// The settings of a fresh installation: new windows come to the front, intercept windows
/// close after opening a link, no custom apps and no rules.
pub open spec fn default_config() -> ConfigView {
    ConfigView {
        bring_new_windows_to_front: true,
        close_intercept_window_after_open: true,
        custom_apps: Seq::empty(),
        domain_rules: Seq::empty(),
        protocol_rules: Seq::empty(),
    }
}

impl Default for Config {
    fn default() -> (r: Self)
        ensures
            r@ == default_config(),
    {
        Config {
            bring_new_windows_to_front: default_bring_new_windows_to_front(),
            close_intercept_window_after_open: default_close_intercept_window_after_open(),
            custom_apps: Vec::new(),
            domain_rules: Vec::new(),
            protocol_rules: Vec::new(),
        }
    }
}

/// The value a configuration without the setting has.
pub fn default_bring_new_windows_to_front() -> (r: bool)
    ensures
        r,
{
    true
}

/// The value a configuration without the setting has.
pub fn default_close_intercept_window_after_open() -> (r: bool)
    ensures
        r,
{
    true
}

/// Where a way of opening a URL comes from.
#[derive(Debug, Clone, Copy, PartialEq, Eq, Structural)]
pub enum CandidateKind {
    Browser,
    ProtocolHandler,
    DomainApp,
    ProtocolApp,
    ShellFallback,
}

/// A way of opening a URL, as offered in an intercept window.
#[derive(Debug, Clone, PartialEq, Eq)]
pub struct OpenCandidate {
    pub name: String,
    pub kind: CandidateKind,
    pub command: Option<String>,
    pub args_template: String,
    pub available: bool,
    pub reason: String,
}

#[verifier::ext_equal]
pub struct OpenCandidateView {
    pub name: Seq<char>,
    pub kind: CandidateKind,
    pub command: Option<Seq<char>>,
    pub args_template: Seq<char>,
    pub available: bool,
    pub reason: Seq<char>,
}

impl View for OpenCandidate {
    type V = OpenCandidateView;

    open spec fn view(&self) -> OpenCandidateView {
        OpenCandidateView {
            name: self.name@,
            kind: self.kind,
            command: opt_text(self.command),
            args_template: self.args_template@,
            available: self.available,
            reason: self.reason@,
        }
    }
}

pub open spec fn candidates_view(cs: Seq<OpenCandidate>) -> Seq<OpenCandidateView> {
    cs.map_values(|c: OpenCandidate| c@)
}

/// The command kept for a candidate: none where the given one is missing or blank.
pub open spec fn kept_command(command: Option<Seq<char>>) -> Option<Seq<char>> {
    match command {
        Some(c) => if trim(c).len() > 0 {
            Some(c)
        } else {
            None
        },
        None => None,
    }
}

/// The candidate that `OpenCandidate::new` makes: a blank command counts as none, and a
/// candidate is available where it has a command or is the shell fallback.
pub open spec fn new_candidate(
    name: Seq<char>,
    kind: CandidateKind,
    command: Option<Seq<char>>,
    args_template: Seq<char>,
    reason: Seq<char>,
) -> OpenCandidateView {
    OpenCandidateView {
        name,
        kind,
        command: kept_command(command),
        args_template,
        available: kept_command(command) is Some || kind == CandidateKind::ShellFallback,
        reason,
    }
}

impl OpenCandidate {
    pub fn new(
        name: String,
        kind: CandidateKind,
        command: Option<String>,
        args_template: String,
        reason: String,
    ) -> (r: Self)
        ensures
            r@ == new_candidate(
                name@,
                kind,
                opt_text(command),
                args_template@,
                reason@,
            ),
    {
        let command = match command {
            Some(value) => {
                if crate::text::is_blank(value.as_str()) {
                    None
                } else {
                    Some(value)
                }
            },
            None => None,
        };
        let available = command.is_some() || kind == CandidateKind::ShellFallback;
        OpenCandidate { name, kind, command, args_template, available, reason }
    }
}

} // verus!
