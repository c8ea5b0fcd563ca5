//! The ways an intercepted URL can be opened: browsers, the protocol's registered handler,
//! custom apps that a domain or protocol rule names, apps that handle the website, and the
//! Windows default handler, ranked for the kind of URL and without duplicates.
use vstd::prelude::*;
use crate::models::{
    CandidateKind, Config, ConfigView, CustomApp, CustomAppView, DomainRule, DomainRuleView,
    OpenCandidate, OpenCandidateView, ProtocolRule, ProtocolRuleView, apps_view, candidates_view,
    domain_rules_view, new_candidate, protocol_rules_view,
};
use crate::rules::{
    before_char, chars_before, lemma_root_domain_lower, normalize_protocol_scheme,
    normalize_root_domain, protocol_scheme, root_domain,
};
use crate::sorting::{is_stable_sort, stable_sort_by_keys, stable_sort_witness};
use crate::text::{
    chars_eq, chars_eq_ignore_case, chars_of, clone_opt_text, eq_ignore_ascii_case,
    eq_ignore_case, join_texts, lower, lower_chars, opt_text,
};
use crate::urls::{ParsedUrl, parse_url, parsed_view, url_parse};
use crate::windows_integration::{
    AppUriHandlerKey, BrowserInfo, ProtocolInfo, app_uri_candidates_of, discover_app_uri_handlers,
    shell_fallback, shell_fallback_candidate,
};

verus! {

/// The scheme of a URL and, for web URLs, its domain.
#[derive(Debug, Clone, PartialEq, Eq)]
pub struct UrlParts {
    pub scheme: String,
    pub domain: Option<String>,
}

pub open spec fn url_parts_view(p: UrlParts) -> (Seq<char>, Option<Seq<char>>) {
    (p.scheme@, opt_text(p.domain))
}

/// A scheme that makes a URL a web URL.
pub open spec fn is_web_scheme(scheme: Seq<char>) -> bool {
    scheme == "http"@ || scheme == "https"@
}

/// The parts of `input`, given what `url::Url::parse` made of it. A URL that parses gives its
/// scheme in lower case and, for `http` and `https`, its domain in lower case; one that does not
/// gives the lower-cased text before its first `:` (empty where there is none) and no domain.
pub open spec fn url_parts_given(
    input: Seq<char>,
    parsed: Option<(Seq<char>, Option<Seq<char>>)>,
) -> (Seq<char>, Option<Seq<char>>) {
    match parsed {
        Some((scheme, domain)) => {
            let s = lower(scheme);
            (
                s,
                if is_web_scheme(s) {
                    match domain {
                        Some(d) => Some(lower(d)),
                        None => None,
                    }
                } else {
                    None
                },
            )
        },
        None => (
            if exists|i: int| 0 <= i < input.len() && input[i] == ':' {
                lower(before_char(input, ':'))
            } else {
                Seq::empty()
            },
            None,
        ),
    }
}

/// The parts of `input`, as `parse_url_parts` finds them.
pub open spec fn url_parts(input: Seq<char>) -> (Seq<char>, Option<Seq<char>>) {
    url_parts_given(input, url_parse(input))
}

fn is_web(scheme: &str) -> (r: bool)
    ensures
        r == is_web_scheme(scheme@),
{
    let s = chars_of(scheme);
    let http = chars_of("http");
    let https = chars_of("https");
    chars_eq(&s, &http) || chars_eq(&s, &https)
}

/// The parts of `input`, given what `url::Url::parse` made of it.
pub fn parse_url_parts_given(input: &str, parsed: Option<ParsedUrl>) -> (r: UrlParts)
    ensures
        url_parts_view(r) == url_parts_given(input@, parsed_view(parsed)),
{
    match parsed {
        Some(url) => {
            let scheme_chars = chars_of(url.scheme.as_str());
            let scheme = crate::text::string_from(&lower_chars(&scheme_chars));
            let domain = if is_web(scheme.as_str()) {
                match url.domain {
                    Some(d) => {
                        let dc = chars_of(d.as_str());
                        Some(crate::text::string_from(&lower_chars(&dc)))
                    },
                    None => None,
                }
            } else {
                None
            };
            UrlParts { scheme, domain }
        },
        None => {
            let chars = chars_of(input);
            let mut i: usize = 0;
            while i < chars.len() && chars[i] != ':'
                invariant
                    i <= chars@.len(),
                    forall|k: int| 0 <= k < i ==> chars@[k] != ':',
                decreases chars.len() - i,
            {
                i += 1;
            }
            let scheme = if i < chars.len() {
                let before = chars_before(&chars, ':');
                crate::text::string_from(&lower_chars(&before))
            } else {
                String::new()
            };
            UrlParts { scheme, domain: None }
        },
    }
}

/// The scheme of `input` and, for a web URL, its domain.
pub fn parse_url_parts(input: &str) -> (r: UrlParts)
    ensures
        url_parts_view(r) == url_parts(input@),
{
    let parsed = parse_url(input);
    parse_url_parts_given(input, parsed)
}

/// Whether a rule's domain pattern and a domain name the same root domain, up to ASCII case.
pub open spec fn domain_match(pattern: Seq<char>, domain: Seq<char>) -> bool {
    match (root_domain(pattern), root_domain(domain)) {
        (Some(p), Some(d)) => eq_ignore_case(p, d),
        _ => false,
    }
}

/// Whether `pattern` and `domain` name the same root domain: `example.com` matches
/// `a.example.com`, and `*.example.com` matches `example.com` but not `badexample.com`.
pub fn domain_matches(pattern: &str, domain: &str) -> (r: bool)
    ensures
        r == domain_match(pattern@, domain@),
{
    match normalize_root_domain(pattern) {
        Some(p) => match normalize_root_domain(domain) {
            Some(d) => eq_ignore_ascii_case(p.as_str(), d.as_str()),
            None => false,
        },
        None => false,
    }
}

/// Law: a pattern matches a domain exactly when both name a root domain and it is the same
/// one (root domains are in lower case, so ignoring case changes nothing); so matching is
/// symmetric.
pub proof fn lemma_domain_match_same_root(pattern: Seq<char>, domain: Seq<char>)
    ensures
        domain_match(pattern, domain) == (root_domain(pattern) is Some && root_domain(pattern)
            == root_domain(domain)),
        domain_match(pattern, domain) == domain_match(domain, pattern),
{
    lemma_root_domain_lower(pattern, url_parse(crate::text::trim(pattern)));
    lemma_root_domain_lower(domain, url_parse(crate::text::trim(domain)));
    if let (Some(p), Some(d)) = (root_domain(pattern), root_domain(domain)) {
        assert(lower(p) =~= p);
        assert(lower(d) =~= d);
    }
}

/// Law: `http` and `https` URLs, with the scheme in any case, are web URLs: their parsed domain is
/// kept (in lower case), so domain rules and website handlers apply to them, and they are
/// ranked as web URLs, domain apps before browsers and browsers before protocol handlers.
pub proof fn lemma_http_and_https_are_web(input: Seq<char>, scheme: Seq<char>, domain: Seq<char>)
    requires
        lower(scheme) == "http"@ || lower(scheme) == "https"@,
    ensures
        url_parts_given(input, Some((scheme, Some(domain)))) == (lower(scheme), Some(lower(domain))),
        kind_rank(CandidateKind::DomainApp, is_web_scheme(lower(scheme))) < kind_rank(
            CandidateKind::Browser,
            is_web_scheme(lower(scheme)),
        ),
        kind_rank(CandidateKind::Browser, is_web_scheme(lower(scheme))) < kind_rank(
            CandidateKind::ProtocolHandler,
            is_web_scheme(lower(scheme)),
        ),
{
}

/// The domain rules whose pattern matches `domain`, in order; none where there is no domain.
pub open spec fn matching_domain_rules_of(
    rules: Seq<DomainRuleView>,
    domain: Option<Seq<char>>,
) -> Seq<DomainRuleView>
    decreases rules.len(),
{
    if rules.len() == 0 || domain is None {
        Seq::empty()
    } else {
        let r = matching_domain_rules_of(rules.drop_last(), domain);
        if domain_match(rules.last().pattern, domain->0) {
            r.push(rules.last())
        } else {
            r
        }
    }
}

/// Whether a protocol rule's scheme names `scheme` (a normalised scheme), up to ASCII case.
pub open spec fn scheme_match(rule_scheme: Seq<char>, scheme: Seq<char>) -> bool {
    match protocol_scheme(rule_scheme) {
        Some(rs) => eq_ignore_case(rs, scheme),
        None => false,
    }
}

/// The protocol rules, in order, whose scheme names the normalised `scheme`.
pub open spec fn rules_for_scheme(rules: Seq<ProtocolRuleView>, scheme: Seq<char>) -> Seq<
    ProtocolRuleView,
>
    decreases rules.len(),
{
    if rules.len() == 0 {
        Seq::empty()
    } else {
        let r = rules_for_scheme(rules.drop_last(), scheme);
        if scheme_match(rules.last().scheme, scheme) {
            r.push(rules.last())
        } else {
            r
        }
    }
}

/// The protocol rules that match the scheme `scheme` names; none where it names no scheme.
pub open spec fn matching_protocol_rules_of(rules: Seq<ProtocolRuleView>, scheme: Seq<char>) -> Seq<
    ProtocolRuleView,
> {
    match protocol_scheme(scheme) {
        Some(s) => if s.len() > 0 {
            rules_for_scheme(rules, s)
        } else {
            Seq::empty()
        },
        None => Seq::empty(),
    }
}

/// The first custom app whose name is `name` up to ASCII case.
pub open spec fn first_app(apps: Seq<CustomAppView>, name: Seq<char>) -> Option<CustomAppView>
    decreases apps.len(),
{
    if apps.len() == 0 {
        None
    } else if eq_ignore_case(apps[0].name, name) {
        Some(apps[0])
    } else {
        first_app(apps.drop_first(), name)
    }
}

/// The candidates of the installed browsers.
pub open spec fn browser_candidates(bs: Seq<BrowserInfo>) -> Seq<OpenCandidateView> {
    Seq::new(
        bs.len(),
        |i: int|
            new_candidate(
                bs[i].name@,
                CandidateKind::Browser,
                opt_text(bs[i].command),
                "%1"@,
                "已安装的浏览器"@,
            ),
    )
}

/// The candidate of the protocol's registered handler, where the URL has a scheme and a handler
/// was found.
pub open spec fn handler_candidates(scheme: Seq<char>, handler: Option<ProtocolInfo>) -> Seq<
    OpenCandidateView,
> {
    if scheme.len() > 0 && handler is Some {
        seq![
            new_candidate(
                handler->0.name@,
                CandidateKind::ProtocolHandler,
                opt_text(handler->0.command),
                "%1"@,
                "已注册的 "@ + scheme + " 协议处理程序"@,
            ),
        ]
    } else {
        Seq::empty()
    }
}

/// The candidate of a custom app that a rule names.
pub open spec fn app_candidate(app: CustomAppView, kind: CandidateKind, reason: Seq<char>) -> OpenCandidateView {
    new_candidate(app.name, kind, Some(app.executable), app.args_template, reason)
}

/// The candidates of the custom apps that the matching domain rules name (rules that name no
/// app give none).
pub open spec fn domain_app_candidates(apps: Seq<CustomAppView>, rules: Seq<DomainRuleView>) -> Seq<
    OpenCandidateView,
>
    decreases rules.len(),
{
    if rules.len() == 0 {
        Seq::empty()
    } else {
        let r = domain_app_candidates(apps, rules.drop_last());
        match first_app(apps, rules.last().app_name) {
            Some(app) => r.push(
                app_candidate(app, CandidateKind::DomainApp, "域名规则 "@ + rules.last().pattern),
            ),
            None => r,
        }
    }
}

/// The candidates of the custom apps that the matching protocol rules name.
pub open spec fn protocol_app_candidates(
    apps: Seq<CustomAppView>,
    rules: Seq<ProtocolRuleView>,
) -> Seq<OpenCandidateView>
    decreases rules.len(),
{
    if rules.len() == 0 {
        Seq::empty()
    } else {
        let r = protocol_app_candidates(apps, rules.drop_last());
        match first_app(apps, rules.last().app_name) {
            Some(app) => r.push(
                app_candidate(app, CandidateKind::ProtocolApp, "协议规则 "@ + rules.last().scheme),
            ),
            None => r,
        }
    }
}

/// What the registry holds for a URL: the installed browsers, the handler of the URL's scheme,
/// and the apps' `AppUriHandlers` keys (read for web URLs with a domain).
pub struct Discovered {
    pub browsers: Vec<BrowserInfo>,
    pub protocol_handler: Option<ProtocolInfo>,
    pub app_uri_handlers: Vec<AppUriHandlerKey>,
}

/// Every candidate for a URL with `parts`, before ranking: browsers, the protocol handler, the
/// apps of matching domain rules, the apps of matching protocol rules, the apps that handle the
/// website (web URLs only), and the shell fallback.
pub open spec fn collected_candidates(
    config: ConfigView,
    parts: (Seq<char>, Option<Seq<char>>),
    discovered: Discovered,
) -> Seq<OpenCandidateView> {
    let (scheme, domain) = parts;
    browser_candidates(discovered.browsers@) + handler_candidates(scheme, discovered.protocol_handler)
        + domain_app_candidates(
        config.custom_apps,
        matching_domain_rules_of(config.domain_rules, domain),
    ) + protocol_app_candidates(
        config.custom_apps,
        matching_protocol_rules_of(config.protocol_rules, scheme),
    ) + (if is_web_scheme(scheme) && domain is Some {
        app_uri_candidates_of(domain->0, discovered.app_uri_handlers@)
    } else {
        Seq::empty()
    }) + seq![shell_fallback()]
}

/// The rank of a kind of candidate: for web URLs domain apps, then browsers; for other URLs the
/// protocol handler, then protocol apps, then browsers; the shell fallback always last.
pub open spec fn kind_rank(kind: CandidateKind, web: bool) -> int {
    match kind {
        CandidateKind::DomainApp => if web {
            0
        } else {
            6
        },
        CandidateKind::ProtocolHandler => if !web {
            0
        } else {
            4
        },
        CandidateKind::ProtocolApp => if !web {
            1
        } else {
            5
        },
        CandidateKind::Browser => if web {
            2
        } else {
            3
        },
        CandidateKind::ShellFallback => 7,
    }
}

/// The sort key of a candidate: its rank, then available before unavailable, then its name in
/// lower case, compared character by character (which is how `String`'s order compares
/// UTF-8 text).
pub open spec fn sort_key(c: OpenCandidateView, web: bool) -> Seq<i128> {
    seq![kind_rank(c.kind, web) as i128, if c.available { 0i128 } else { 1i128 }] + Seq::new(
        lower(c.name).len(),
        |i: int| lower(c.name)[i] as i128,
    )
}

pub open spec fn sort_keys(cs: Seq<OpenCandidateView>, web: bool) -> Seq<Seq<i128>> {
    Seq::new(cs.len(), |i: int| sort_key(cs[i], web))
}

/// Two candidates that offer the same thing: the same name up to ASCII case, kind and command.
pub open spec fn same_candidate(a: OpenCandidateView, b: OpenCandidateView) -> bool {
    eq_ignore_case(a.name, b.name) && a.kind == b.kind && a.command == b.command
}

/// `cs` with every candidate dropped that repeats an earlier one.
pub open spec fn without_duplicates(cs: Seq<OpenCandidateView>) -> Seq<OpenCandidateView>
    decreases cs.len(),
{
    if cs.len() == 0 {
        cs
    } else {
        let r = without_duplicates(cs.drop_last());
        if exists|i: int| 0 <= i < r.len() && same_candidate(#[trigger] r[i], cs.last()) {
            r
        } else {
            r.push(cs.last())
        }
    }
}

/// The candidates offered for a URL with `parts`: every collected candidate, sorted stably by
/// `sort_key`, without duplicates.
pub open spec fn offered_candidates(
    config: ConfigView,
    parts: (Seq<char>, Option<Seq<char>>),
    discovered: Discovered,
    result: Seq<OpenCandidateView>,
) -> bool {
    let collected = collected_candidates(config, parts, discovered);
    exists|sorted: Seq<OpenCandidateView>|
        #![trigger without_duplicates(sorted)]
        is_stable_sort(collected, sort_keys(collected, is_web_scheme(parts.0)), sorted)
            && result == without_duplicates(sorted)
}

fn matching_domain_rules<'a>(config: &'a Config, domain: Option<&str>) -> (r: Vec<&'a DomainRule>)
    ensures
        r@.map_values(|x: &DomainRule| x@) == matching_domain_rules_of(
            config@.domain_rules,
            match domain {
                Some(d) => Some(d@),
                None => None,
            },
        ),
{
    let mut r: Vec<&'a DomainRule> = Vec::new();
    let d = match domain {
        Some(d) => d,
        None => {
            proof {
                assert(r@.map_values(|x: &DomainRule| x@) =~= Seq::<DomainRuleView>::empty());
            }
            return r;
        },
    };
    let ghost rules = config@.domain_rules;
    let mut i: usize = 0;
    while i < config.domain_rules.len()
        invariant
            i <= config.domain_rules@.len(),
            rules == domain_rules_view(config.domain_rules@),
            r@.map_values(|x: &DomainRule| x@) == matching_domain_rules_of(rules.take(i as int), Some(d@)),
        decreases config.domain_rules.len() - i,
    {
        let rule = &config.domain_rules[i];
        proof {
            assert(rules.take(i + 1).drop_last() =~= rules.take(i as int));
            assert(rules.take(i + 1).last() == rule@);
        }
        if domain_matches(rule.pattern.as_str(), d) {
            let ghost before = r@;
            r.push(rule);
            proof {
                assert(r@.map_values(|x: &DomainRule| x@) =~= before.map_values(|x: &DomainRule| x@).push(rule@));
            }
        }
        i += 1;
    }
    proof {
        assert(rules.take(i as int) =~= rules);
    }
    r
}

fn matching_protocol_rules<'a>(config: &'a Config, scheme: &str) -> (r: Vec<&'a ProtocolRule>)
    ensures
        r@.map_values(|x: &ProtocolRule| x@) == matching_protocol_rules_of(config@.protocol_rules, scheme@),
{
    let mut r: Vec<&'a ProtocolRule> = Vec::new();
    let s = match normalize_protocol_scheme(scheme) {
        Some(s) => s,
        None => String::new(),
    };
    if s.as_str().is_empty() {
        proof {
            assert(r@.map_values(|x: &ProtocolRule| x@) =~= Seq::<ProtocolRuleView>::empty());
        }
        return r;
    }
    let ghost rules = config@.protocol_rules;
    let mut i: usize = 0;
    while i < config.protocol_rules.len()
        invariant
            i <= config.protocol_rules@.len(),
            rules == protocol_rules_view(config.protocol_rules@),
            r@.map_values(|x: &ProtocolRule| x@) == rules_for_scheme(rules.take(i as int), s@),
        decreases config.protocol_rules.len() - i,
    {
        let rule = &config.protocol_rules[i];
        proof {
            assert(rules.take(i + 1).drop_last() =~= rules.take(i as int));
            assert(rules.take(i + 1).last() == rule@);
        }
        let matched = match normalize_protocol_scheme(rule.scheme.as_str()) {
            Some(rs) => eq_ignore_ascii_case(rs.as_str(), s.as_str()),
            None => false,
        };
        if matched {
            let ghost before = r@;
            r.push(rule);
            proof {
                assert(r@.map_values(|x: &ProtocolRule| x@) =~= before.map_values(|x: &ProtocolRule| x@).push(rule@));
            }
        }
        i += 1;
    }
    proof {
        assert(rules.take(i as int) =~= rules);
    }
    r
}

/// The position of the first custom app named `name` up to ASCII case.
fn find_app(apps: &Vec<CustomApp>, name: &str) -> (r: Option<usize>)
    ensures
        match r {
            Some(j) => j < apps@.len() && first_app(apps_view(apps@), name@) == Some(apps@[j as int]@),
            None => first_app(apps_view(apps@), name@) is None,
        },
{
    let ghost all = apps_view(apps@);
    let mut i: usize = 0;
    proof {
        assert(all.skip(0) =~= all);
    }
    while i < apps.len()
        invariant
            i <= apps@.len(),
            all == apps_view(apps@),
            first_app(all, name@) == first_app(all.skip(i as int), name@),
        decreases apps.len() - i,
    {
        proof {
            assert(all.skip(i as int)[0] == apps@[i as int]@);
            assert(all.skip(i as int).drop_first() =~= all.skip(i + 1));
        }
        if eq_ignore_ascii_case(apps[i].name.as_str(), name) {
            return Some(i);
        }
        i += 1;
    }
    None
}

/// Sorts candidates stably: for web URLs domain apps, then browsers; for other URLs the protocol
/// handler, then protocol apps, then browsers; available before unavailable; by name ignoring
/// ASCII case; the shell fallback last.
fn sort_candidates(candidates: Vec<OpenCandidate>, web: bool) -> (r: Vec<OpenCandidate>)
    ensures
        is_stable_sort(
            candidates_view(candidates@),
            sort_keys(candidates_view(candidates@), web),
            candidates_view(r@),
        ),
{
    let mut keys: Vec<Vec<i128>> = Vec::new();
    let mut i: usize = 0;
    let ghost views = candidates_view(candidates@);
    while i < candidates.len()
        invariant
            i <= candidates@.len(),
            views == candidates_view(candidates@),
            keys.deep_view() == sort_keys(views, web).take(i as int),
        decreases candidates.len() - i,
    {
        let key = candidate_key(&candidates[i], web);
        let ghost before = keys.deep_view();
        proof {
            assert(key.deep_view() =~= key@);
        }
        keys.push(key);
        proof {
            assert(keys.deep_view() =~= before.push(sort_key(views[i as int], web)));
            assert(sort_keys(views, web).take(i + 1) =~= sort_keys(views, web).take(i as int).push(
                sort_key(views[i as int], web),
            ));
        }
        i += 1;
    }
    proof {
        assert(sort_keys(views, web).take(i as int) =~= sort_keys(views, web));
    }
    let ghost items = candidates@;
    let sorted = stable_sort_by_keys(candidates, keys);
    proof {
        let p = choose|p: Seq<int>| stable_sort_witness(items, sort_keys(views, web), sorted@, p);
        assert(stable_sort_witness(views, sort_keys(views, web), candidates_view(sorted@), p));
    }
    sorted
}

fn kind_rank_of(kind: CandidateKind, web: bool) -> (r: i128)
    ensures
        r == kind_rank(kind, web),
{
    match kind {
        CandidateKind::DomainApp => if web {
            0
        } else {
            6
        },
        CandidateKind::ProtocolHandler => if !web {
            0
        } else {
            4
        },
        CandidateKind::ProtocolApp => if !web {
            1
        } else {
            5
        },
        CandidateKind::Browser => if web {
            2
        } else {
            3
        },
        CandidateKind::ShellFallback => 7,
    }
}

fn candidate_key(c: &OpenCandidate, web: bool) -> (r: Vec<i128>)
    ensures
        r@ == sort_key(c@, web),
{
    let mut key: Vec<i128> = Vec::new();
    key.push(kind_rank_of(c.kind, web));
    key.push(if c.available { 0 } else { 1 });
    let name = chars_of(c.name.as_str());
    let lowered = lower_chars(&name);
    let mut i: usize = 0;
    while i < lowered.len()
        invariant
            i <= lowered@.len(),
            lowered@ == lower(c.name@),
            key@ == seq![kind_rank(c.kind, web) as i128, if c.available { 0i128 } else { 1i128 }]
                + Seq::new(i as nat, |k: int| lowered@[k] as i128),
        decreases lowered.len() - i,
    {
        key.push((lowered[i] as u32) as i128);
        i += 1;
        proof {
            assert(key@ =~= seq![kind_rank(c.kind, web) as i128, if c.available { 0i128 } else { 1i128 }]
                + Seq::new(i as nat, |k: int| lowered@[k] as i128));
        }
    }
    proof {
        assert(key@ =~= sort_key(c@, web));
    }
    key
}

fn same_command(a: &Option<String>, b: &Option<String>) -> (r: bool)
    ensures
        r == (opt_text(*a) == opt_text(*b)),
{
    match (a, b) {
        (Some(x), Some(y)) => *x == *y,
        (None, None) => true,
        _ => false,
    }
}

/// `candidates` without those that repeat an earlier candidate.
fn deduplicate(candidates: Vec<OpenCandidate>) -> (r: Vec<OpenCandidate>)
    ensures
        candidates_view(r@) == without_duplicates(candidates_view(candidates@)),
{
    let ghost all = candidates_view(candidates@);
    let mut rest = candidates;
    let mut result: Vec<OpenCandidate> = Vec::new();
    let ghost mut taken: int = 0;
    proof {
        assert(all.take(0) =~= Seq::<OpenCandidateView>::empty());
        assert(candidates_view(rest@) =~= all.skip(0));
    }
    while rest.len() > 0
        invariant
            0 <= taken <= all.len(),
            candidates_view(rest@) == all.skip(taken),
            candidates_view(result@) == without_duplicates(all.take(taken)),
        decreases rest@.len(),
    {
        let ghost old_rest = rest@;
        proof {
            assert(candidates_view(old_rest).len() == old_rest.len());
            assert(candidates_view(old_rest)[0] == old_rest[0]@);
        }
        let candidate = rest.remove(0);
        proof {
            assert(candidate@ == all[taken]);
            assert(rest@ =~= old_rest.subrange(1, old_rest.len() as int));
            assert(candidates_view(rest@) =~= candidates_view(old_rest).subrange(1, old_rest.len() as int));
            assert(candidates_view(old_rest).subrange(1, old_rest.len() as int) =~= all.skip(taken + 1));
            assert(all.take(taken + 1).drop_last() =~= all.take(taken));
            assert(all.take(taken + 1).last() == all[taken]);
        }
        let name = chars_of(candidate.name.as_str());
        let mut duplicate = false;
        let mut j: usize = 0;
        while j < result.len()
            invariant
                j <= result@.len(),
                name@ == candidate.name@,
                !duplicate ==> forall|k: int| 0 <= k < j ==> !same_candidate(#[trigger] candidates_view(result@)[k], candidate@),
                duplicate ==> exists|k: int| 0 <= k < result@.len() && same_candidate(#[trigger] candidates_view(result@)[k], candidate@),
            decreases result.len() - j,
        {
            let existing = &result[j];
            let existing_name = chars_of(existing.name.as_str());
            if chars_eq_ignore_case(&existing_name, &name) && existing.kind == candidate.kind
                && same_command(&existing.command, &candidate.command) {
                proof {
                    assert(same_candidate(candidates_view(result@)[j as int], candidate@));
                }
                duplicate = true;
            }
            j += 1;
        }
        if !duplicate {
            let ghost before = result@;
            result.push(candidate);
            proof {
                assert(candidates_view(result@) =~= candidates_view(before).push(all[taken]));
            }
        }
        proof {
            taken = taken + 1;
        }
    }
    proof {
        assert(all.skip(taken).len() == 0);
        assert(all.take(taken) =~= all);
    }
    result
}

fn push_app_candidate(
    cands: &mut Vec<OpenCandidate>,
    app: &CustomApp,
    kind: CandidateKind,
    prefix: &str,
    rule_text: &str,
)
    ensures
        candidates_view(final(cands)@) == candidates_view(old(cands)@).push(
            app_candidate(app@, kind, prefix@ + rule_text@),
        ),
{
    let c = OpenCandidate::new(
        app.name.clone(),
        kind,
        Some(app.executable.clone()),
        app.args_template.clone(),
        join_texts(prefix, rule_text),
    );
    let ghost before = cands@;
    cands.push(c);
    proof {
        assert(candidates_view(cands@) =~= candidates_view(before).push(c@));
    }
}

/// The candidates for a URL with `parts` (as `parse_url_parts` finds them), given what the
/// registry holds for it.
pub fn build_candidates_given(config: &Config, parts: &UrlParts, discovered: Discovered) -> (r: Vec<
    OpenCandidate,
>)
    ensures
        offered_candidates(config@, url_parts_view(*parts), discovered, candidates_view(r@)),
{
    let ghost disc = discovered;
    let ghost cfg = config@;
    let web = is_web(parts.scheme.as_str());
    let Discovered { browsers, protocol_handler, app_uri_handlers } = discovered;
    let mut cands: Vec<OpenCandidate> = Vec::new();
    let mut i: usize = 0;
    while i < browsers.len()
        invariant
            i <= browsers@.len(),
            browsers@ == disc.browsers@,
            candidates_view(cands@) == browser_candidates(browsers@).take(i as int),
        decreases browsers.len() - i,
    {
        let b = &browsers[i];
        let c = OpenCandidate::new(
            b.name.clone(),
            CandidateKind::Browser,
            clone_opt_text(&b.command),
            "%1".to_owned(),
            "已安装的浏览器".to_owned(),
        );
        let ghost before = cands@;
        cands.push(c);
        i += 1;
        proof {
            assert(c@ == browser_candidates(browsers@)[i - 1]);
            assert(candidates_view(cands@) =~= candidates_view(before).push(c@));
            assert(candidates_view(cands@) =~= browser_candidates(browsers@).take(i as int));
        }
    }
    proof {
        assert(browser_candidates(browsers@).take(i as int) =~= browser_candidates(browsers@));
    }
    let ghost stage1 = candidates_view(cands@);
    if !parts.scheme.as_str().is_empty() {
        match &protocol_handler {
            Some(handler) => {
                let c = OpenCandidate::new(
                    handler.name.clone(),
                    CandidateKind::ProtocolHandler,
                    clone_opt_text(&handler.command),
                    "%1".to_owned(),
                    join_texts(join_texts("已注册的 ", parts.scheme.as_str()).as_str(), " 协议处理程序"),
                );
                cands.push(c);
                proof {
                    assert(parts.scheme@.len() > 0);
                    assert(candidates_view(cands@) =~= stage1 + handler_candidates(
                        parts.scheme@,
                        disc.protocol_handler,
                    ));
                }
            },
            None => {
                proof {
                    assert(candidates_view(cands@) =~= stage1 + handler_candidates(
                        parts.scheme@,
                        disc.protocol_handler,
                    ));
                }
            },
        }
    } else {
        proof {
            assert(parts.scheme@.len() == 0);
            assert(candidates_view(cands@) =~= stage1 + handler_candidates(
                parts.scheme@,
                disc.protocol_handler,
            ));
        }
    }
    let ghost stage2 = candidates_view(cands@);
    let domain_rules = match &parts.domain {
        Some(d) => matching_domain_rules(config, Some(d.as_str())),
        None => matching_domain_rules(config, None),
    };
    let ghost drules = domain_rules@.map_values(|x: &DomainRule| x@);
    proof {
        assert(drules == matching_domain_rules_of(cfg.domain_rules, opt_text(parts.domain)));
        assert(drules.take(0) =~= Seq::<DomainRuleView>::empty());
        assert(candidates_view(cands@) =~= stage2 + domain_app_candidates(cfg.custom_apps, drules.take(0)));
    }
    let mut k: usize = 0;
    while k < domain_rules.len()
        invariant
            k <= domain_rules@.len(),
            drules == domain_rules@.map_values(|x: &DomainRule| x@),
            cfg == config@,
            candidates_view(cands@) == stage2 + domain_app_candidates(cfg.custom_apps, drules.take(k as int)),
        decreases domain_rules.len() - k,
    {
        let rule = domain_rules[k];
        proof {
            assert(drules.take(k + 1).drop_last() =~= drules.take(k as int));
            assert(drules.take(k + 1).last() == rule@);
        }
        match find_app(&config.custom_apps, rule.app_name.as_str()) {
            Some(j) => {
                push_app_candidate(
                    &mut cands,
                    &config.custom_apps[j],
                    CandidateKind::DomainApp,
                    "域名规则 ",
                    rule.pattern.as_str(),
                );
                proof {
                    assert(candidates_view(cands@) =~= stage2 + domain_app_candidates(
                        cfg.custom_apps,
                        drules.take(k + 1),
                    ));
                }
            },
            None => {},
        }
        k += 1;
    }
    proof {
        assert(drules.take(k as int) =~= drules);
    }
    let ghost stage3 = candidates_view(cands@);
    let protocol_rules = matching_protocol_rules(config, parts.scheme.as_str());
    let ghost prules = protocol_rules@.map_values(|x: &ProtocolRule| x@);
    proof {
        assert(prules.take(0) =~= Seq::<ProtocolRuleView>::empty());
        assert(candidates_view(cands@) =~= stage3 + protocol_app_candidates(cfg.custom_apps, prules.take(0)));
    }
    let mut k: usize = 0;
    while k < protocol_rules.len()
        invariant
            k <= protocol_rules@.len(),
            prules == protocol_rules@.map_values(|x: &ProtocolRule| x@),
            cfg == config@,
            candidates_view(cands@) == stage3 + protocol_app_candidates(cfg.custom_apps, prules.take(k as int)),
        decreases protocol_rules.len() - k,
    {
        let rule = protocol_rules[k];
        proof {
            assert(prules.take(k + 1).drop_last() =~= prules.take(k as int));
            assert(prules.take(k + 1).last() == rule@);
        }
        match find_app(&config.custom_apps, rule.app_name.as_str()) {
            Some(j) => {
                push_app_candidate(
                    &mut cands,
                    &config.custom_apps[j],
                    CandidateKind::ProtocolApp,
                    "协议规则 ",
                    rule.scheme.as_str(),
                );
                proof {
                    assert(candidates_view(cands@) =~= stage3 + protocol_app_candidates(
                        cfg.custom_apps,
                        prules.take(k + 1),
                    ));
                }
            },
            None => {},
        }
        k += 1;
    }
    proof {
        assert(prules.take(k as int) =~= prules);
    }
    let ghost stage4 = candidates_view(cands@);
    let domain = match &parts.domain {
        Some(d) => if web {
            Some(d.as_str())
        } else {
            None
        },
        None => None,
    };
    if let Some(d) = domain {
        let mut handlers = discover_app_uri_handlers(d, app_uri_handlers);
        cands.append(&mut handlers);
        proof {
            assert(candidates_view(cands@) =~= stage4 + app_uri_candidates_of(
                parts.domain->0@,
                disc.app_uri_handlers@,
            ));
        }
    } else {
        proof {
            assert(candidates_view(cands@) =~= stage4 + Seq::<OpenCandidateView>::empty());
        }
    }
    let ghost stage5 = candidates_view(cands@);
    let fallback = shell_fallback_candidate();
    cands.push(fallback);
    proof {
        assert(candidates_view(cands@) =~= stage5 + seq![shell_fallback()]);
        assert(candidates_view(cands@) =~= collected_candidates(cfg, url_parts_view(*parts), disc));
    }
    let ghost collected = candidates_view(cands@);
    let sorted = sort_candidates(cands, web);
    let ghost sorted_view = candidates_view(sorted@);
    let result = deduplicate(sorted);
    proof {
        assert(is_stable_sort(collected, sort_keys(collected, web), sorted_view));
        assert(candidates_view(result@) == without_duplicates(sorted_view));
    }
    result
}

/// The candidates offered for opening `url`, ranked and without duplicates, given what the
/// registry holds for it (see `Discovered`).
pub fn build_candidates(config: &Config, url: &str, discovered: Discovered) -> (r: Vec<
    OpenCandidate,
>)
    ensures
        offered_candidates(config@, url_parts(url@), discovered, candidates_view(r@)),
{
    let parts = parse_url_parts(url);
    build_candidates_given(config, &parts, discovered)
}

pub proof fn lemma_without_duplicates_distinct(cs: Seq<OpenCandidateView>)
    ensures
        forall|i: int, j: int|
            0 <= i < j < without_duplicates(cs).len() ==> !same_candidate(
                #[trigger] without_duplicates(cs)[i],
                #[trigger] without_duplicates(cs)[j],
            ),
    decreases cs.len(),
{
    if cs.len() > 0 {
        lemma_without_duplicates_distinct(cs.drop_last());
        let r = without_duplicates(cs.drop_last());
        if !(exists|i: int| 0 <= i < r.len() && same_candidate(#[trigger] r[i], cs.last())) {
            let w = r.push(cs.last());
            assert forall|i: int, j: int| 0 <= i < j < w.len() implies !same_candidate(#[trigger] w[i], #[trigger] w[j]) by {
                if j == r.len() {
                    assert(w[j] == cs.last());
                    assert(w[i] == r[i]);
                } else {
                    assert(w[i] == r[i] && w[j] == r[j]);
                }
            }
        }
    }
}

pub proof fn lemma_without_duplicates_covers(cs: Seq<OpenCandidateView>)
    ensures
        forall|i: int|
            0 <= i < cs.len() ==> exists|k: int|
                0 <= k < without_duplicates(cs).len() && same_candidate(
                    #[trigger] without_duplicates(cs)[k],
                    #[trigger] cs[i],
                ),
    decreases cs.len(),
{
    if cs.len() > 0 {
        lemma_without_duplicates_covers(cs.drop_last());
        let r = without_duplicates(cs.drop_last());
        let w = without_duplicates(cs);
        assert(forall|k: int| 0 <= k < r.len() ==> #[trigger] w[k] == r[k]);
        assert forall|i: int| 0 <= i < cs.len() implies exists|k: int| 0 <= k < w.len() && same_candidate(#[trigger] w[k], #[trigger] cs[i]) by {
            if i < cs.len() - 1 {
                assert(cs[i] == cs.drop_last()[i]);
                let k = choose|k: int| 0 <= k < r.len() && same_candidate(#[trigger] r[k], cs.drop_last()[i]);
                assert(w[k] == r[k]);
            } else {
                if exists|k: int| 0 <= k < r.len() && same_candidate(#[trigger] r[k], cs.last()) {
                    let k = choose|k: int| 0 <= k < r.len() && same_candidate(#[trigger] r[k], cs.last());
                    assert(w[k] == r[k]);
                } else {
                    assert(w[r.len() as int] == cs.last());
                }
            }
        }
    }
}

/// Law: the candidates offered for a URL never offer the same thing twice (the same name up to
/// ASCII case, kind and command), and the Windows default handler is always among them.
pub proof fn lemma_offered_candidates(
    config: ConfigView,
    parts: (Seq<char>, Option<Seq<char>>),
    discovered: Discovered,
    result: Seq<OpenCandidateView>,
)
    requires
        offered_candidates(config, parts, discovered, result),
    ensures
        forall|i: int, j: int|
            0 <= i < j < result.len() ==> !same_candidate(#[trigger] result[i], #[trigger] result[j]),
        exists|k: int| 0 <= k < result.len() && same_candidate(#[trigger] result[k], shell_fallback()),
{
    let collected = collected_candidates(config, parts, discovered);
    let keys = sort_keys(collected, is_web_scheme(parts.0));
    let sorted = choose|sorted: Seq<OpenCandidateView>|
        #![trigger without_duplicates(sorted)]
        is_stable_sort(collected, keys, sorted) && result == without_duplicates(sorted);
    lemma_without_duplicates_distinct(sorted);
    lemma_without_duplicates_covers(sorted);
    let last = collected.len() - 1;
    assert(collected[last] == shell_fallback());
    let p = choose|p: Seq<int>| stable_sort_witness(collected, keys, sorted, p);
    crate::sorting::lemma_witness_onto(collected, keys, sorted, p);
    assert(crate::sorting::position_taken(p, last));
    let i = choose|i: int| 0 <= i < p.len() && p[i] == last;
    assert(sorted[i] == shell_fallback());
    let k = choose|k: int| 0 <= k < result.len() && same_candidate(#[trigger] result[k], #[trigger] sorted[i]);
    assert(same_candidate(result[k], shell_fallback()));
}

/// `w` keeps items of `cs` in their order: `w[k]` is `cs[q[k]]` with `q` increasing.
pub open spec fn kept_in_order(cs: Seq<OpenCandidateView>, w: Seq<OpenCandidateView>, q: Seq<int>) -> bool {
    &&& q.len() == w.len()
    &&& forall|k: int| 0 <= k < q.len() ==> 0 <= #[trigger] q[k] < cs.len() && w[k] == cs[q[k]]
    &&& forall|k1: int, k2: int| 0 <= k1 < k2 < q.len() ==> #[trigger] q[k1] < #[trigger] q[k2]
}

pub proof fn lemma_without_duplicates_in_order(cs: Seq<OpenCandidateView>)
    ensures
        exists|q: Seq<int>| kept_in_order(cs, without_duplicates(cs), q),
    decreases cs.len(),
{
    if cs.len() == 0 {
        assert(kept_in_order(cs, without_duplicates(cs), Seq::empty()));
    } else {
        lemma_without_duplicates_in_order(cs.drop_last());
        let r = without_duplicates(cs.drop_last());
        let q = choose|q: Seq<int>| kept_in_order(cs.drop_last(), r, q);
        if exists|i: int| 0 <= i < r.len() && same_candidate(#[trigger] r[i], cs.last()) {
            assert(kept_in_order(cs, without_duplicates(cs), q));
        } else {
            let q2 = q.push(cs.len() - 1);
            assert(kept_in_order(cs, without_duplicates(cs), q2));
        }
    }
}

/// Law: the candidates offered for a URL come in rank order: for web URLs domain apps, then
/// browsers, then the protocol handler and protocol apps; for other URLs the protocol handler,
/// then protocol apps, then browsers, then domain apps; the Windows default handler last.
pub proof fn lemma_offered_candidates_ranked(
    config: ConfigView,
    parts: (Seq<char>, Option<Seq<char>>),
    discovered: Discovered,
    result: Seq<OpenCandidateView>,
)
    requires
        offered_candidates(config, parts, discovered, result),
    ensures
        forall|i: int, j: int|
            0 <= i < j < result.len() ==> kind_rank(#[trigger] result[i].kind, is_web_scheme(parts.0))
                <= kind_rank(#[trigger] result[j].kind, is_web_scheme(parts.0)),
{
    let web = is_web_scheme(parts.0);
    let collected = collected_candidates(config, parts, discovered);
    let keys = sort_keys(collected, web);
    let sorted = choose|sorted: Seq<OpenCandidateView>|
        #![trigger without_duplicates(sorted)]
        is_stable_sort(collected, keys, sorted) && result == without_duplicates(sorted);
    let p = choose|p: Seq<int>| stable_sort_witness(collected, keys, sorted, p);
    lemma_without_duplicates_in_order(sorted);
    let q = choose|q: Seq<int>| kept_in_order(sorted, result, q);
    assert forall|i: int, j: int| 0 <= i < j < result.len() implies kind_rank(#[trigger] result[i].kind, web)
        <= kind_rank(#[trigger] result[j].kind, web) by {
        let a = q[i];
        let b = q[j];
        assert(a < b);
        assert(crate::sorting::sorts_before(keys, p[a], p[b]));
        assert(sorted[a] == collected[p[a]]);
        assert(sorted[b] == collected[p[b]]);
        let ka = keys[p[a]];
        let kb = keys[p[b]];
        assert(ka == sort_key(sorted[a], web));
        assert(kb == sort_key(sorted[b], web));
        assert(ka[0] == kind_rank(sorted[a].kind, web) as i128);
        assert(kb[0] == kind_rank(sorted[b].kind, web) as i128);
        assert(ka.len() >= 2 && kb.len() >= 2);
    }
}

} // verus!
