//! The decisions behind the program's Windows integration: whether it is registered, what it
//! writes to the registry, what it reads from discovered browsers and protocol handlers, and how
//! a candidate's command line becomes a process to start. The registry and process calls
//! themselves stand in the application around this library.
use vstd::prelude::*;
use crate::models::{CandidateKind, OpenCandidate, OpenCandidateView, new_candidate};
use crate::rules::non_empty;
use crate::text::{
    chars_eq, chars_eq_ignore_case, clone_opt_text, join_texts, opt_text, chars_of, concat, eq_ignore_case, is_whitespace, is_ws,
    lower, lower_chars, replace_all, replace_chars, slice_of, string_from, trim, trim_chars,
};

verus! {

/// Whether the program is registered as a browser candidate, and whether Windows may have
/// chosen it as the default.
#[derive(Debug, Clone, Copy, PartialEq, Eq, Structural)]
pub enum RegistrationState {
    NotRegistered,
    Registered,
    PossibleDefault,
}

/// An installed browser: its display name and its open command, where it has one.
#[derive(Debug, Clone)]
pub struct BrowserInfo {
    pub name: String,
    pub command: Option<String>,
}

/// A registered handler of a URL protocol: its display name and open command.
#[derive(Debug, Clone)]
pub struct ProtocolInfo {
    pub name: String,
    pub command: Option<String>,
}

/// `std::io::Error`, carried by `IntegrationError::Io`.
#[verifier::external_type_specification]
#[verifier::external_body]
pub struct ExIoError(std::io::Error);

/// Why an integration step failed.
#[derive(Debug)]
pub enum IntegrationError {
    Registry(String),
    Io(std::io::Error),
    UnsupportedPlatform,
}

/// The name the program registers under.
pub const APP_NAME: &'static str = "Link Interceptor";

/// The value name under `Software\RegisteredApplications`.
pub const REGISTERED_APP_NAME: &'static str = "LinkInterceptor";

/// The key that holds the program's capabilities.
pub const CAPABILITIES_PATH: &'static str = "Software\\LinkInterceptor\\Capabilities";

/// The key that lists registered applications.
pub const REGISTERED_APPLICATIONS_PATH: &'static str = "Software\\RegisteredApplications";

/// The key of everything the program writes under its own name.
pub const APP_KEY_PATH: &'static str = "Software\\LinkInterceptor";

/// The program's URL class.
pub const PROG_ID: &'static str = "LinkInterceptorURL";

/// The key of the program's URL class.
pub const PROG_ID_PATH: &'static str = "Software\\Classes\\LinkInterceptorURL";

/// The registration state given what the registry holds: the value of the program under
/// `RegisteredApplications`, and the `ProgId` that Windows chose for `http` and for `https`.
pub open spec fn registration_state_of(
    registered_value: Option<Seq<char>>,
    http_choice: Option<Seq<char>>,
    https_choice: Option<Seq<char>>,
) -> RegistrationState {
    if registered_value != Some(CAPABILITIES_PATH@) {
        RegistrationState::NotRegistered
    } else if http_choice == Some(PROG_ID@) || https_choice == Some(PROG_ID@) {
        RegistrationState::PossibleDefault
    } else {
        RegistrationState::Registered
    }
}

fn opt_equals(value: &Option<String>, expected: &str) -> (r: bool)
    ensures
        r == (opt_text(*value) == Some(expected@)),
{
    match value {
        Some(v) => {
            let e = expected.to_owned();
            *v == e
        },
        None => false,
    }
}

/// The registration state given the registry values that decide it (each `None` where the
/// value or its key is missing). Where the registry is not available, all three are `None` and
/// the state is `NotRegistered`.
pub fn registration_state(
    registered_value: Option<String>,
    http_choice: Option<String>,
    https_choice: Option<String>,
) -> (r: RegistrationState)
    ensures
        r == registration_state_of(
            opt_text(registered_value),
            opt_text(http_choice),
            opt_text(https_choice),
        ),
{
    if !opt_equals(&registered_value, CAPABILITIES_PATH) {
        return RegistrationState::NotRegistered;
    }
    if opt_equals(&http_choice, PROG_ID) || opt_equals(&https_choice, PROG_ID) {
        RegistrationState::PossibleDefault
    } else {
        RegistrationState::Registered
    }
}

/// One registry value to write: the key (under the current user's hive), the value name and the
/// string data.
#[derive(Debug, Clone)]
pub struct RegistryValue {
    pub key: String,
    pub name: String,
    pub data: String,
}

#[verifier::ext_equal]
pub struct RegistryValueView {
    pub key: Seq<char>,
    pub name: Seq<char>,
    pub data: Seq<char>,
}

impl View for RegistryValue {
    type V = RegistryValueView;

    open spec fn view(&self) -> RegistryValueView {
        RegistryValueView { key: self.key@, name: self.name@, data: self.data@ }
    }
}

/// The command Windows runs to open a URL with the program at `exe`: `"<exe>" "%1"`.
pub open spec fn open_command(exe: Seq<char>) -> Seq<char> {
    seq!['"'] + exe + "\" \"%1\""@
}

/// The values that register the program at `exe` as a browser candidate, in the order they are
/// written.
pub open spec fn registration_values_of(exe: Seq<char>) -> Seq<RegistryValueView> {
    seq![
        RegistryValueView { key: CAPABILITIES_PATH@, name: "ApplicationName"@, data: APP_NAME@ },
        RegistryValueView {
            key: CAPABILITIES_PATH@,
            name: "ApplicationDescription"@,
            data: "Intercept URLs before opening them in a browser or app."@,
        },
        RegistryValueView {
            key: CAPABILITIES_PATH@ + "\\URLAssociations"@,
            name: "http"@,
            data: PROG_ID@,
        },
        RegistryValueView {
            key: CAPABILITIES_PATH@ + "\\URLAssociations"@,
            name: "https"@,
            data: PROG_ID@,
        },
        RegistryValueView {
            key: REGISTERED_APPLICATIONS_PATH@,
            name: REGISTERED_APP_NAME@,
            data: CAPABILITIES_PATH@,
        },
        RegistryValueView { key: PROG_ID_PATH@, name: Seq::empty(), data: APP_NAME@ },
        RegistryValueView { key: PROG_ID_PATH@, name: "URL Protocol"@, data: Seq::empty() },
        RegistryValueView {
            key: PROG_ID_PATH@ + "\\shell\\open\\command"@,
            name: Seq::empty(),
            data: open_command(exe),
        },
    ]
}

fn registry_value(key: &str, name: &str, data: &str) -> (r: RegistryValue)
    ensures
        r@ == (RegistryValueView { key: key@, name: name@, data: data@ }),
{
    RegistryValue { key: key.to_owned(), name: name.to_owned(), data: data.to_owned() }
}

/// The registry values that register the program at `exe_path`.
pub fn registration_values(exe_path: &str) -> (r: Vec<RegistryValue>)
    ensures
        r@.map_values(|v: RegistryValue| v@) == registration_values_of(exe_path@),
{
    let associations = join_texts(CAPABILITIES_PATH, "\\URLAssociations");
    let command_key = join_texts(PROG_ID_PATH, "\\shell\\open\\command");
    let quoted = join_texts("\"", exe_path);
    let command = join_texts(quoted.as_str(), "\" \"%1\"");
    let mut r: Vec<RegistryValue> = Vec::new();
    r.push(registry_value(CAPABILITIES_PATH, "ApplicationName", APP_NAME));
    r.push(
        registry_value(
            CAPABILITIES_PATH,
            "ApplicationDescription",
            "Intercept URLs before opening them in a browser or app.",
        ),
    );
    r.push(registry_value(associations.as_str(), "http", PROG_ID));
    r.push(registry_value(associations.as_str(), "https", PROG_ID));
    r.push(registry_value(REGISTERED_APPLICATIONS_PATH, REGISTERED_APP_NAME, CAPABILITIES_PATH));
    r.push(registry_value(PROG_ID_PATH, "", APP_NAME));
    r.push(registry_value(PROG_ID_PATH, "URL Protocol", ""));
    r.push(registry_value(command_key.as_str(), "", command.as_str()));
    proof {
        assert(""@ =~= Seq::<char>::empty()) by {
            reveal_strlit("");
        }
        assert("\""@ =~= seq!['"']) by {
            reveal_strlit("\"");
        }
        assert(r@.map_values(|v: RegistryValue| v@) =~= registration_values_of(exe_path@));
    }
    r
}

/// Law: registering associates the program with exactly the `http` and `https` schemes: under
/// the capabilities' `URLAssociations` key one value is written for `http` and one for `https`,
/// each naming the program's URL class, and no other; and the class's open command is the
/// quoted program path followed by `"%1"`.
pub proof fn lemma_registration_associates_http_and_https(exe: Seq<char>)
    ensures
        exists|i: int|
            0 <= i < registration_values_of(exe).len() && #[trigger] registration_values_of(exe)[i]
                == (RegistryValueView {
                key: "Software\\LinkInterceptor\\Capabilities\\URLAssociations"@,
                name: "http"@,
                data: "LinkInterceptorURL"@,
            }),
        exists|i: int|
            0 <= i < registration_values_of(exe).len() && #[trigger] registration_values_of(exe)[i]
                == (RegistryValueView {
                key: "Software\\LinkInterceptor\\Capabilities\\URLAssociations"@,
                name: "https"@,
                data: "LinkInterceptorURL"@,
            }),
        forall|k: int|
            0 <= k < registration_values_of(exe).len() && #[trigger] registration_values_of(
                exe,
            )[k].key == "Software\\LinkInterceptor\\Capabilities\\URLAssociations"@ ==> (
            registration_values_of(exe)[k].name == "http"@ || registration_values_of(exe)[k].name
                == "https"@) && registration_values_of(exe)[k].data == "LinkInterceptorURL"@,
        exists|i: int|
            0 <= i < registration_values_of(exe).len() && #[trigger] registration_values_of(exe)[i]
                == (RegistryValueView {
                key: "Software\\Classes\\LinkInterceptorURL\\shell\\open\\command"@,
                name: Seq::empty(),
                data: seq!['"'] + exe + "\" \"%1\""@,
            }),
{
    reveal_strlit("Software\\LinkInterceptor\\Capabilities\\URLAssociations");
    reveal_strlit("Software\\LinkInterceptor\\Capabilities");
    reveal_strlit("\\URLAssociations");
    reveal_strlit("Software\\RegisteredApplications");
    reveal_strlit("Software\\Classes\\LinkInterceptorURL");
    reveal_strlit("\\shell\\open\\command");
    reveal_strlit("Software\\Classes\\LinkInterceptorURL\\shell\\open\\command");
    reveal_strlit("http");
    reveal_strlit("https");
    reveal_strlit("LinkInterceptorURL");
    let vs = registration_values_of(exe);
    let assoc = "Software\\LinkInterceptor\\Capabilities\\URLAssociations"@;
    assert(CAPABILITIES_PATH@ + "\\URLAssociations"@ =~= assoc);
    assert(PROG_ID_PATH@ + "\\shell\\open\\command"@
        =~= "Software\\Classes\\LinkInterceptorURL\\shell\\open\\command"@);
    assert(vs[2].name == "http"@);
    assert(vs[3].name == "https"@);
    assert(vs[7].data == open_command(exe));
    assert forall|k: int| 0 <= k < vs.len() && #[trigger] vs[k].key == assoc implies (vs[k].name
        == "http"@ || vs[k].name == "https"@) && vs[k].data == "LinkInterceptorURL"@ by {
        assert(CAPABILITIES_PATH@.len() != assoc.len());
        assert(REGISTERED_APPLICATIONS_PATH@.len() != assoc.len());
        assert(PROG_ID_PATH@.len() != assoc.len());
        assert(vs[k] == vs[k]);
        if k == 0 || k == 1 {
            assert(vs[k].key == CAPABILITIES_PATH@);
        } else if k == 4 {
            assert(vs[k].key == REGISTERED_APPLICATIONS_PATH@);
        } else if k == 5 || k == 6 {
            assert(vs[k].key == PROG_ID_PATH@);
        } else if k == 7 {
            assert(vs[k].key.len() != assoc.len());
        }
    }
}

/// The key under which Windows records the user's choice of handler for `scheme`.
pub open spec fn user_choice_key(scheme: Seq<char>) -> Seq<char> {
    "Software\\Microsoft\\Windows\\Shell\\Associations\\UrlAssociations\\"@ + scheme
        + "\\UserChoice"@
}

/// The key under which Windows records the user's choice of handler for `scheme`.
pub fn user_choice_path(scheme: &str) -> (r: String)
    ensures
        r@ == user_choice_key(scheme@),
{
    let head = join_texts("Software\\Microsoft\\Windows\\Shell\\Associations\\UrlAssociations\\", scheme);
    join_texts(head.as_str(), "\\UserChoice")
}

/// The key of the class that handles `scheme`.
pub fn protocol_class_path(scheme: &str) -> (r: String)
    ensures
        r@ == "Software\\Classes\\"@ + scheme@,
{
    join_texts("Software\\Classes\\", scheme)
}

/// A registry default value, where it is present and not blank.
pub open spec fn non_blank(value: Option<Seq<char>>) -> Option<Seq<char>> {
    match value {
        Some(v) => if trim(v).len() > 0 {
            Some(v)
        } else {
            None
        },
        None => None,
    }
}

fn non_blank_text(value: Option<String>) -> (r: Option<String>)
    ensures
        opt_text(r) == non_blank(opt_text(value)),
{
    match value {
        Some(v) => {
            if crate::text::is_blank(v.as_str()) {
                None
            } else {
                Some(v)
            }
        },
        None => None,
    }
}

/// The browser described by a key under `StartMenuInternet`: named by the key's default value
/// where that is not blank, else by the key's name.
pub fn browser_info(key_name: String, default_value: Option<String>, command: Option<String>) -> (r:
    BrowserInfo)
    ensures
        r.name@ == match non_blank(opt_text(default_value)) {
            Some(v) => v,
            None => key_name@,
        },
        opt_text(r.command) == opt_text(command),
{
    let name = match non_blank_text(default_value) {
        Some(v) => v,
        None => key_name,
    };
    BrowserInfo { name, command }
}

/// The handler of `scheme` described by its class key: named by the key's default value where
/// that is not blank, else `<scheme> handler`.
pub fn protocol_info(scheme: &str, default_value: Option<String>, command: Option<String>) -> (r:
    ProtocolInfo)
    ensures
        r.name@ == match non_blank(opt_text(default_value)) {
            Some(v) => v,
            None => scheme@ + " handler"@,
        },
        opt_text(r.command) == opt_text(command),
{
    let name = match non_blank_text(default_value) {
        Some(v) => v,
        None => join_texts(scheme, " handler"),
    };
    ProtocolInfo { name, command }
}

/// The names of a list of browsers.
pub open spec fn browser_names(bs: Seq<BrowserInfo>) -> Seq<Seq<char>> {
    bs.map_values(|b: BrowserInfo| b.name@)
}

/// Adds `browser` to `browsers` unless a browser of the same name, up to ASCII case, is there.
pub fn push_unique_browser(browsers: &mut Vec<BrowserInfo>, browser: BrowserInfo)
    ensures
        (exists|i: int|
            0 <= i < old(browsers)@.len() && eq_ignore_case(
                #[trigger] old(browsers)@[i].name@,
                browser.name@,
            )) ==> final(browsers)@ == old(browsers)@,
        !(exists|i: int|
            0 <= i < old(browsers)@.len() && eq_ignore_case(
                #[trigger] old(browsers)@[i].name@,
                browser.name@,
            )) ==> final(browsers)@ == old(browsers)@.push(browser),
{
    let name = chars_of(browser.name.as_str());
    let mut i: usize = 0;
    while i < browsers.len()
        invariant
            i <= browsers@.len(),
            browsers@ == old(browsers)@,
            name@ == browser.name@,
            forall|k: int| 0 <= k < i ==> !eq_ignore_case(#[trigger] browsers@[k].name@, name@),
        decreases browsers.len() - i,
    {
        let existing = chars_of(browsers[i].name.as_str());
        if chars_eq_ignore_case(&existing, &name) {
            return;
        }
        i += 1;
    }
    browsers.push(browser);
}

/// A registry name or value that an app's URI handlers list matches `domain`: the trimmed,
/// lower-cased pattern is the domain, or is `*.<suffix>` where the domain is the suffix or ends
/// with `.<suffix>`.
pub open spec fn domain_pattern_match(pattern: Seq<char>, domain: Seq<char>) -> bool {
    let p = lower(trim(pattern));
    ||| p == domain
    ||| (p.len() >= 2 && p[0] == '*' && p[1] == '.' && {
        let suffix = p.skip(2);
        ||| domain == suffix
        ||| (domain.len() >= suffix.len() + 1 && domain.skip(domain.len() - suffix.len() - 1)
            == seq!['.'] + suffix)
    })
}

/// Whether the handler pattern `pattern` covers `domain` (the domain given in lower case).
pub fn domain_pattern_matches(pattern: &str, domain: &str) -> (r: bool)
    ensures
        r == domain_pattern_match(pattern@, domain@),
{
    let pc = chars_of(pattern);
    let pt = trim_chars(&pc);
    let p = lower_chars(&pt);
    let d = chars_of(domain);
    if chars_eq(&p, &d) {
        return true;
    }
    if p.len() >= 2 && p[0] == '*' && p[1] == '.' {
        let suffix = slice_of(&p, 2, p.len());
        proof {
            assert(suffix@ =~= p@.skip(2));
        }
        if chars_eq(&d, &suffix) {
            return true;
        }
        if d.len() >= suffix.len() + 1 {
            let tail = slice_of(&d, d.len() - suffix.len() - 1, d.len());
            let mut dot: Vec<char> = Vec::new();
            dot.push('.');
            let dotted = concat(&dot, &suffix);
            proof {
                assert(tail@ =~= d@.skip(d@.len() - suffix@.len() - 1));
                assert(dotted@ =~= seq!['.'] + suffix@);
                assert(p@ == lower(trim(pattern@)));
                assert(d@ == domain@);
            }
            return chars_eq(&tail, &dotted);
        }
    }
    false
}

/// Whether any of the names and texts read from an app's `AppUriHandlers` key (its subkey names,
/// the value names and string data of those subkeys, and its own value names) covers `domain`.
pub fn app_uri_handlers_match_domain(entries: &Vec<String>, domain: &str) -> (r: bool)
    ensures
        r == exists|i: int|
            0 <= i < entries@.len() && domain_pattern_match(#[trigger] entries@[i]@, domain@),
{
    let mut i: usize = 0;
    while i < entries.len()
        invariant
            i <= entries@.len(),
            forall|k: int| 0 <= k < i ==> !domain_pattern_match(#[trigger] entries@[k]@, domain@),
        decreases entries.len() - i,
    {
        if domain_pattern_matches(entries[i].as_str(), domain) {
            return true;
        }
        i += 1;
    }
    false
}

/// The candidate for an app that declares itself a handler for a website: never has a
/// command, and is available.
pub open spec fn app_uri_candidate(app_key_name: Seq<char>, domain: Seq<char>) -> OpenCandidateView {
    OpenCandidateView {
        available: true,
        ..new_candidate(
            "App URI handler: "@ + app_key_name,
            CandidateKind::DomainApp,
            None,
            "{url}"@,
            "Windows Apps for Websites match for "@ + domain,
        )
    }
}

/// The candidate for the app under `app_key_name` whose URI handlers cover `domain` (the domain
/// given in lower case).
pub fn app_uri_handler_candidate(app_key_name: &str, domain: &str) -> (r: OpenCandidate)
    ensures
        r@ == app_uri_candidate(app_key_name@, domain@),
{
    let mut candidate = OpenCandidate::new(
        join_texts("App URI handler: ", app_key_name),
        CandidateKind::DomainApp,
        None,
        "{url}".to_owned(),
        join_texts("Windows Apps for Websites match for ", domain),
    );
    candidate.available = true;
    candidate
}

/// The UTF-16 code units of a `REG_SZ` value's bytes: little-endian pairs (an odd last byte
/// dropped), up to the first zero unit.
pub open spec fn reg_sz_units(bytes: Seq<u8>) -> Seq<u16>
    decreases bytes.len(),
{
    if bytes.len() < 2 {
        Seq::empty()
    } else {
        let unit = (bytes[0] as u16 + (bytes[1] as u16) * 256) as u16;
        if unit == 0 {
            Seq::empty()
        } else {
            seq![unit] + reg_sz_units(bytes.skip(2))
        }
    }
}

/// A UTF-16 code unit that is half of a surrogate pair.
pub open spec fn is_surrogate(u: u16) -> bool {
    0xD800 <= u && u <= 0xDFFF
}

/// The text that the UTF-16 code units `units` encode: a unit outside the surrogate range
/// stands for the character of that number; a high surrogate (`D800`-`DBFF`) followed by a low
/// one (`DC00`-`DFFF`) stands for the character `10000 + (high - D800) * 400 + (low - DC00)`
/// (hexadecimal); `None` where a surrogate is unpaired.
pub open spec fn utf16_text(units: Seq<u16>) -> Option<Seq<char>>
    decreases units.len(),
{
    if units.len() == 0 {
        Some(Seq::empty())
    } else if !is_surrogate(units[0]) {
        match utf16_text(units.drop_first()) {
            Some(t) => Some(seq![units[0] as char] + t),
            None => None,
        }
    } else if units[0] <= 0xDBFF && units.len() >= 2 && 0xDC00 <= units[1] && units[1] <= 0xDFFF {
        let c = (0x10000 + (units[0] - 0xD800) * 0x400 + (units[1] - 0xDC00)) as char;
        match utf16_text(units.skip(2)) {
            Some(t) => Some(seq![c] + t),
            None => None,
        }
    } else {
        None
    }
}

/// Calls `String::from_utf16`, which decodes UTF-16 and fails on invalid data (an unpaired
/// surrogate). The contract claims that the result is the text `utf16_text` states, or `None`
/// where that is `None`.
#[verifier::external_body]
fn decode_utf16(units: &[u16]) -> (r: Option<String>)
    ensures
        opt_text(r) == utf16_text(units@),
{
    String::from_utf16(units).ok()
}

/// The text of a `REG_SZ` value's bytes, where they are valid UTF-16.
pub fn reg_sz_text(bytes: &[u8]) -> (r: Option<String>)
    ensures
        opt_text(r) == utf16_text(reg_sz_units(bytes@)),
{
    let mut units: Vec<u16> = Vec::new();
    let mut i: usize = 0;
    proof {
        assert(bytes@.skip(0) =~= bytes@);
    }
    while bytes.len() - i >= 2
        invariant_except_break
            i <= bytes@.len(),
            reg_sz_units(bytes@) == units@ + reg_sz_units(bytes@.skip(i as int)),
        ensures
            reg_sz_units(bytes@) == units@,
        decreases bytes.len() - i,
    {
        let unit: u16 = (bytes[i] as u16) + (bytes[i + 1] as u16) * 256;
        proof {
            assert(bytes@.skip(i as int)[0] == bytes@[i as int]);
            assert(bytes@.skip(i as int)[1] == bytes@[i + 1]);
            assert(bytes@.skip(i as int).skip(2) =~= bytes@.skip(i + 2));
        }
        if unit == 0 {
            proof {
                assert(reg_sz_units(bytes@.skip(i as int)) =~= Seq::<u16>::empty());
                assert(units@ + Seq::<u16>::empty() =~= units@);
            }
            break;
        }
        proof {
            assert(units@.push(unit) + reg_sz_units(bytes@.skip(i + 2)) =~= units@ + (seq![unit]
                + reg_sz_units(bytes@.skip(i + 2))));
        }
        units.push(unit);
        i += 2;
    }
    decode_utf16(units.as_slice())
}

/// The candidate that hands the URL to the Windows default handler.
pub open spec fn shell_fallback() -> OpenCandidateView {
    new_candidate(
        "Windows default handler"@,
        CandidateKind::ShellFallback,
        None,
        "{url}"@,
        "Use the current Windows default handler"@,
    )
}

/// The candidate that hands the URL to the Windows default handler (always available).
pub fn shell_fallback_candidate() -> (r: OpenCandidate)
    ensures
        r@ == shell_fallback(),
        r.available,
{
    OpenCandidate::new(
        "Windows default handler".to_owned(),
        CandidateKind::ShellFallback,
        None,
        "{url}".to_owned(),
        "Use the current Windows default handler".to_owned(),
    )
}

/// The arguments of a command line: split at whitespace outside double quotes; a double quote
/// opens or closes a quoted part and is dropped; a backslash followed by a double quote stands
/// for a literal double quote; empty arguments are dropped. `cur` is the argument being read and
/// `quoted` whether a quoted part is open.
pub open spec fn split_command(s: Seq<char>, cur: Seq<char>, quoted: bool) -> Seq<Seq<char>>
    decreases s.len(),
{
    if s.len() == 0 {
        if cur.len() > 0 {
            seq![cur]
        } else {
            Seq::empty()
        }
    } else if s[0] == '"' {
        split_command(s.drop_first(), cur, !quoted)
    } else if s[0] == '\\' && s.len() >= 2 && s[1] == '"' {
        split_command(s.skip(2), cur.push('"'), quoted)
    } else if is_ws(s[0]) && !quoted {
        (if cur.len() > 0 {
            seq![cur]
        } else {
            Seq::<Seq<char>>::empty()
        }) + split_command(s.drop_first(), Seq::empty(), quoted)
    } else {
        split_command(s.drop_first(), cur.push(s[0]), quoted)
    }
}

/// The arguments of the command line `s`.
pub open spec fn command_args(s: Seq<char>) -> Seq<Seq<char>> {
    split_command(s, Seq::empty(), false)
}

proof fn lemma_split_command_non_empty(s: Seq<char>, cur: Seq<char>, quoted: bool)
    ensures
        forall|i: int|
            0 <= i < split_command(s, cur, quoted).len() ==> #[trigger] split_command(s, cur, quoted)[i].len() > 0,
    decreases s.len(),
{
    let r = split_command(s, cur, quoted);
    if s.len() == 0 {
        assert forall|i: int| 0 <= i < r.len() implies #[trigger] r[i].len() > 0 by {
            assert(r == seq![cur]);
        }
    } else if s[0] == '"' {
        lemma_split_command_non_empty(s.drop_first(), cur, !quoted);
        assert(r == split_command(s.drop_first(), cur, !quoted));
    } else if s[0] == '\\' && s.len() >= 2 && s[1] == '"' {
        lemma_split_command_non_empty(s.skip(2), cur.push('"'), quoted);
        assert(r == split_command(s.skip(2), cur.push('"'), quoted));
    } else if is_ws(s[0]) && !quoted {
        lemma_split_command_non_empty(s.drop_first(), Seq::empty(), quoted);
        let head = if cur.len() > 0 {
            seq![cur]
        } else {
            Seq::<Seq<char>>::empty()
        };
        let tail = split_command(s.drop_first(), Seq::empty(), quoted);
        assert(r == head + tail);
        assert forall|i: int| 0 <= i < r.len() implies #[trigger] r[i].len() > 0 by {
            if i >= head.len() {
                assert(r[i] == tail[i - head.len()]);
            } else {
                assert(r[i] == cur);
            }
        }
    } else {
        lemma_split_command_non_empty(s.drop_first(), cur.push(s[0]), quoted);
        assert(r == split_command(s.drop_first(), cur.push(s[0]), quoted));
    }
}

/// Law: a command line never splits into an empty argument.
pub proof fn lemma_command_args_non_empty(s: Seq<char>)
    ensures
        forall|i: int| 0 <= i < command_args(s).len() ==> #[trigger] command_args(s)[i].len() > 0,
{
    lemma_split_command_non_empty(s, Seq::empty(), false);
}

/// The pieces of `s` between its whitespace characters, from the left (always at least one
/// piece, possibly empty), as `s.split(char::is_whitespace)` yields them.
pub open spec fn whitespace_pieces(s: Seq<char>) -> Seq<Seq<char>>
    decreases s.len(),
{
    if s.len() == 0 {
        seq![Seq::empty()]
    } else {
        let r = whitespace_pieces(s.drop_first());
        if is_ws(s[0]) {
            seq![Seq::<char>::empty()] + r
        } else {
            r.update(0, seq![s[0]] + r[0])
        }
    }
}

/// The words of `s`: the non-empty pieces between whitespace, as `str::split_whitespace`
/// yields them.
pub open spec fn whitespace_words(s: Seq<char>) -> Seq<Seq<char>> {
    non_empty(whitespace_pieces(s))
}

proof fn lemma_whitespace_pieces_not_empty(s: Seq<char>)
    ensures
        whitespace_pieces(s).len() >= 1,
    decreases s.len(),
{
    if s.len() > 0 {
        lemma_whitespace_pieces_not_empty(s.drop_first());
    }
}

proof fn lemma_non_empty_prepend(x: Seq<char>, r: Seq<Seq<char>>)
    ensures
        non_empty(seq![x] + r) == (if x.len() > 0 {
            seq![x]
        } else {
            Seq::<Seq<char>>::empty()
        }) + non_empty(r),
    decreases r.len(),
{
    let head = if x.len() > 0 {
        seq![x]
    } else {
        Seq::<Seq<char>>::empty()
    };
    if r.len() == 0 {
        assert(seq![x] + r =~= seq![x]);
        assert(seq![x].drop_last() =~= Seq::<Seq<char>>::empty());
        assert(head + non_empty(r) =~= head);
        if x.len() > 0 {
            assert(non_empty(Seq::<Seq<char>>::empty()).push(x) =~= seq![x]);
        }
    } else {
        lemma_non_empty_prepend(x, r.drop_last());
        assert((seq![x] + r).drop_last() =~= seq![x] + r.drop_last());
        assert((seq![x] + r).last() == r.last());
        if r.last().len() > 0 {
            assert(head + non_empty(r.drop_last()).push(r.last()) =~= (head + non_empty(
                r.drop_last(),
            )).push(r.last()));
        }
    }
}

proof fn lemma_split_command_unquoted(s: Seq<char>, cur: Seq<char>)
    requires
        forall|i: int| 0 <= i < s.len() ==> s[i] != '"',
    ensures
        split_command(s, cur, false) == non_empty(
            seq![cur + whitespace_pieces(s)[0]] + whitespace_pieces(s).drop_first(),
        ),
    decreases s.len(),
{
    lemma_whitespace_pieces_not_empty(s);
    if s.len() == 0 {
        assert(cur + Seq::<char>::empty() =~= cur);
        assert(whitespace_pieces(s) == seq![Seq::<char>::empty()]);
        assert(whitespace_pieces(s).drop_first() =~= Seq::<Seq<char>>::empty());
        assert(seq![cur] + Seq::<Seq<char>>::empty() =~= seq![cur]);
        lemma_non_empty_prepend(cur, Seq::empty());
        assert(non_empty(Seq::<Seq<char>>::empty()) =~= Seq::<Seq<char>>::empty());
    } else {
        let t = s.drop_first();
        let r = whitespace_pieces(t);
        lemma_whitespace_pieces_not_empty(t);
        assert(s[0] != '"');
        if is_ws(s[0]) {
            lemma_split_command_unquoted(t, Seq::empty());
            assert(Seq::<char>::empty() + r[0] =~= r[0]);
            assert(seq![r[0]] + r.drop_first() =~= r);
            let p = whitespace_pieces(s);
            assert(p == seq![Seq::<char>::empty()] + r);
            assert(p[0] =~= Seq::<char>::empty());
            assert(p.drop_first() =~= r);
            assert(cur + p[0] =~= cur);
            lemma_non_empty_prepend(cur, r);
        } else {
            assert(!(s[0] == '\\' && s.len() >= 2 && s[1] == '"'));
            lemma_split_command_unquoted(t, cur.push(s[0]));
            let p = whitespace_pieces(s);
            assert(p == r.update(0, seq![s[0]] + r[0]));
            assert(p.drop_first() =~= r.drop_first());
            assert(cur + p[0] =~= cur.push(s[0]) + r[0]);
        }
    }
}

/// Law: a command line without double quotes splits into its whitespace-separated words, as
/// `str::split_whitespace` would split it.
pub proof fn lemma_command_args_without_quotes(s: Seq<char>)
    requires
        forall|i: int| 0 <= i < s.len() ==> s[i] != '"',
    ensures
        command_args(s) == whitespace_words(s),
{
    lemma_split_command_unquoted(s, Seq::empty());
    lemma_whitespace_pieces_not_empty(s);
    let p = whitespace_pieces(s);
    assert(Seq::<char>::empty() + p[0] =~= p[0]);
    assert(seq![p[0]] + p.drop_first() =~= p);
}

proof fn lemma_split_command_quoted_run(q: Seq<char>, rest: Seq<char>, cur: Seq<char>)
    requires
        forall|i: int| 0 <= i < q.len() ==> q[i] != '"',
        q.len() == 0 || q.last() != '\\',
        rest.len() > 0,
        rest[0] == '"',
    ensures
        split_command(q + rest, cur, true) == split_command(rest, cur + q, true),
    decreases q.len(),
{
    if q.len() == 0 {
        assert(q + rest =~= rest);
        assert(cur + q =~= cur);
    } else {
        let s = q + rest;
        assert(s[0] == q[0]);
        if q.len() >= 2 {
            assert(s[1] == q[1]);
        } else {
            assert(q[0] == q.last());
        }
        assert(s.drop_first() =~= q.drop_first() + rest);
        if q.len() >= 2 {
            assert(q.drop_first().last() == q.last());
        }
        lemma_split_command_quoted_run(q.drop_first(), rest, cur.push(q[0]));
        assert(cur.push(q[0]) + q.drop_first() =~= cur + q);
    }
}

/// Law: the open command the program registers parses back into the program's path and `%1`,
/// for a path without double quotes that does not end in a backslash.
pub proof fn lemma_open_command_round_trip(exe: Seq<char>)
    requires
        exe.len() > 0,
        forall|i: int| 0 <= i < exe.len() ==> exe[i] != '"',
        exe.last() != '\\',
    ensures
        command_args(open_command(exe)) == seq![exe, "%1"@],
{
    reveal_strlit("\" \"%1\"");
    reveal_strlit("%1");
    let tail = "\" \"%1\""@;
    let s = open_command(exe);
    assert(s[0] == '"');
    assert(s.drop_first() =~= exe + tail);
    lemma_split_command_quoted_run(exe, tail, Seq::empty());
    assert(Seq::<char>::empty() + exe =~= exe);
    let t1 = tail.drop_first();
    assert(t1[0] == ' ');
    let t2 = t1.drop_first();
    assert(t2[0] == '"');
    let t3 = t2.drop_first();
    assert(t3[0] == '%' && t3[1] == '1' && t3[2] == '"');
    let t4 = t3.drop_first();
    let t5 = t4.drop_first();
    let t6 = t5.drop_first();
    assert(t6.len() == 0);
    assert(split_command(t6, seq!['%', '1'], false) == seq![seq!['%', '1']]);
    assert(split_command(t5, seq!['%', '1'], true) == seq![seq!['%', '1']]);
    assert(seq!['%'].push('1') =~= seq!['%', '1']);
    assert(split_command(t4, seq!['%'], true) == seq![seq!['%', '1']]);
    assert(Seq::<char>::empty().push('%') =~= seq!['%']);
    assert(split_command(t3, Seq::empty(), true) == seq![seq!['%', '1']]);
    assert(split_command(t2, Seq::empty(), false) == seq![seq!['%', '1']]);
    assert(split_command(t1, exe, false) == seq![exe] + seq![seq!['%', '1']]);
    assert(split_command(tail, exe, true) == split_command(t1, exe, false));
    assert("%1"@ =~= seq!['%', '1']);
    assert(seq![exe] + seq![seq!['%', '1']] =~= seq![exe, "%1"@]);
}

/// The texts of a list of strings.
pub open spec fn string_texts(v: Seq<String>) -> Seq<Seq<char>> {
    v.map_values(|x: String| x@)
}

/// The arguments of a Windows command line such as `"C:\Program Files\App\app.exe" "%1"`.
pub fn split_command_line(input: &str) -> (r: Vec<String>)
    ensures
        string_texts(r@) == command_args(input@),
{
    let s = chars_of(input);
    let mut args: Vec<String> = Vec::new();
    let mut current: Vec<char> = Vec::new();
    let mut in_quotes = false;
    let mut i: usize = 0;
    proof {
        assert(s@.skip(0) =~= s@);
        assert(string_texts(args@) + command_args(s@) =~= command_args(s@));
    }
    while i < s.len()
        invariant
            i <= s@.len(),
            s@ == input@,
            string_texts(args@) + split_command(s@.skip(i as int), current@, in_quotes)
                == command_args(input@),
        decreases s.len() - i,
    {
        let ch = s[i];
        let ghost rest = s@.skip(i as int);
        proof {
            assert(rest[0] == ch);
            assert(rest.drop_first() =~= s@.skip(i + 1));
        }
        if ch == '"' {
            in_quotes = !in_quotes;
            i += 1;
        } else if ch == '\\' && i + 1 < s.len() && s[i + 1] == '"' {
            proof {
                assert(rest[1] == s@[i + 1]);
                assert(rest.skip(2) =~= s@.skip(i + 2));
            }
            current.push('"');
            i += 2;
        } else if is_whitespace(ch) && !in_quotes {
            if current.len() > 0 {
                let ghost before = string_texts(args@);
                let word = string_from(&current);
                args.push(word);
                proof {
                    assert(string_texts(args@) =~= before.push(current@));
                    assert(string_texts(args@) + split_command(s@.skip(i + 1), Seq::empty(), in_quotes)
                        =~= before + (seq![current@] + split_command(s@.skip(i + 1), Seq::empty(), in_quotes)));
                }
            } else {
                proof {
                    assert(Seq::<Seq<char>>::empty() + split_command(s@.skip(i + 1), Seq::empty(), in_quotes)
                        =~= split_command(s@.skip(i + 1), Seq::empty(), in_quotes));
                }
            }
            current = Vec::new();
            i += 1;
        } else {
            current.push(ch);
            i += 1;
        }
    }
    proof {
        assert(s@.skip(i as int) =~= Seq::<char>::empty());
    }
    if current.len() > 0 {
        let ghost before = string_texts(args@);
        let word = string_from(&current);
        args.push(word);
        proof {
            assert(string_texts(args@) =~= before.push(current@));
            assert(before + seq![current@] =~= before.push(current@));
        }
    } else {
        proof {
            assert(string_texts(args@) + Seq::<Seq<char>>::empty() =~= string_texts(args@));
        }
    }
    args
}

/// How a candidate opens a URL.
#[derive(Debug, Clone)]
pub enum LaunchPlan {
    /// Hand the URL to the Windows default handler.
    OpenWithShell,
    /// Start `executable` with `args`.
    Spawn { executable: String, args: Vec<String> },
}

/// `arg` with `%1`, `%L` and `{url}` replaced by the URL, in that order.
pub open spec fn fill_url(arg: Seq<char>, url: Seq<char>) -> Seq<char> {
    replace_all(replace_all(replace_all(arg, "%1"@, url), "%L"@, url), "{url}"@, url)
}

/// The arguments a candidate starts its executable with, before the URL is filled in: the
/// argument template's arguments, or, where the template is blank, the arguments that follow
/// the executable in the command; `{url}` where there are none.
pub open spec fn template_args(command_parts: Seq<Seq<char>>, args_template: Seq<char>) -> Seq<
    Seq<char>,
> {
    let args = if trim(args_template).len() == 0 {
        command_parts.drop_first()
    } else {
        command_args(args_template)
    };
    if args.len() == 0 {
        seq!["{url}"@]
    } else {
        args
    }
}

/// Whether a candidate hands the URL to the shell rather than starting its own executable:
/// it is the shell fallback, has no command, or its command has no executable.
pub open spec fn opens_with_shell(c: OpenCandidateView) -> bool {
    c.kind == CandidateKind::ShellFallback || c.command is None || command_args(
        c.command->0,
    ).len() == 0
}

/// The process a candidate starts for `url`: the first argument of its command, with the
/// template arguments, the URL filled in.
pub open spec fn spawn_of(c: OpenCandidateView, url: Seq<char>) -> (Seq<char>, Seq<Seq<char>>) {
    let parts = command_args(c.command->0);
    let args = template_args(parts, c.args_template);
    (parts[0], Seq::new(args.len(), |i: int| fill_url(args[i], url)))
}

fn fill_url_arg(arg: &str, url: &[char]) -> (r: String)
    ensures
        r@ == fill_url(arg@, url@),
{
    let a = chars_of(arg);
    let p1 = chars_of("%1");
    let p2 = chars_of("%L");
    let p3 = chars_of("{url}");
    proof {
        reveal_strlit("%1");
        reveal_strlit("%L");
        reveal_strlit("{url}");
    }
    let a = replace_chars(&a, &p1, url);
    let a = replace_chars(&a, &p2, url);
    let a = replace_chars(&a, &p3, url);
    string_from(&a)
}

/// How `candidate` opens `url`.
pub fn launch_plan(candidate: &OpenCandidate, url: &str) -> (r: LaunchPlan)
    ensures
        opens_with_shell(candidate@) ==> r is OpenWithShell,
        !opens_with_shell(candidate@) ==> match r {
            LaunchPlan::Spawn { executable, args } => (executable@, string_texts(args@))
                == spawn_of(candidate@, url@),
            LaunchPlan::OpenWithShell => false,
        },
{
    if candidate.kind == CandidateKind::ShellFallback {
        return LaunchPlan::OpenWithShell;
    }
    let command = match &candidate.command {
        Some(c) => c,
        None => {
            return LaunchPlan::OpenWithShell;
        },
    };
    let parts = split_command_line(command.as_str());
    if parts.len() == 0 {
        return LaunchPlan::OpenWithShell;
    }
    let ghost parts_view = string_texts(parts@);
    let executable = parts[0].clone();
    let args: Vec<String> = if crate::text::is_blank(candidate.args_template.as_str()) {
        let mut rest: Vec<String> = Vec::new();
        let mut k: usize = 1;
        while k < parts.len()
            invariant
                1 <= k <= parts@.len(),
                string_texts(rest@) == string_texts(parts@).subrange(1, k as int),
            decreases parts.len() - k,
        {
            let ghost before = rest@;
            let item = parts[k].clone();
            assert(item@ == parts@[k as int]@);
            rest.push(item);
            k += 1;
            proof {
                assert(string_texts(rest@) =~= string_texts(before).push(parts@[k - 1]@));
                assert(string_texts(rest@) =~= string_texts(parts@).subrange(1, k as int));
            }
        }
        proof {
            assert(string_texts(parts@).subrange(1, parts@.len() as int) =~= parts_view.drop_first());
        }
        rest
    } else {
        split_command_line(candidate.args_template.as_str())
    };
    let mut args = args;
    if args.len() == 0 {
        args.push("{url}".to_owned());
        proof {
            assert(string_texts(args@) =~= seq!["{url}"@]);
        }
    }
    let ghost expected = template_args(parts_view, candidate.args_template@);
    assert(string_texts(args@) == expected);
    let url_chars = chars_of(url);
    let mut filled: Vec<String> = Vec::new();
    let mut i: usize = 0;
    while i < args.len()
        invariant
            i <= args@.len(),
            string_texts(args@) == expected,
            url_chars@ == url@,
            string_texts(filled@) == Seq::new(i as nat, |j: int| fill_url(expected[j], url@)),
        decreases args.len() - i,
    {
        assert(expected[i as int] == args@[i as int]@);
        let arg = fill_url_arg(args[i].as_str(), &url_chars);
        let ghost before = filled@;
        filled.push(arg);
        i += 1;
        proof {
            assert(string_texts(filled@) =~= string_texts(before).push(fill_url(expected[i - 1], url@)));
            assert(string_texts(filled@) =~= Seq::new(i as nat, |j: int| fill_url(expected[j], url@)));
        }
    }
    LaunchPlan::Spawn { executable, args: filled }
}

/// The error for a failed registry operation, carrying the operating system's message.
///
/// The message is `ToString::to_string` of the I/O error; its text is left unsaid: an
/// `io::Error` has no plain value to state it over, and the operating system's text depends on
/// the locale.
pub fn registry_error(error: std::io::Error) -> (r: IntegrationError)
    ensures
        r is Registry,
{
    IntegrationError::Registry(io_error_message(&error))
}

/// `ToString::to_string` of an I/O error: the operating system's message, of which nothing is
/// stated.
#[verifier::external_body]
fn io_error_message(error: &std::io::Error) -> String {
    error.to_string()
}

/// A key under `Clients\StartMenuInternet` as read from the registry: its name, its default
/// value and its `shell\open\command` default value, where present.
#[derive(Debug, Clone)]
pub struct StartMenuEntry {
    pub key_name: String,
    pub default_value: Option<String>,
    pub command: Option<String>,
}

/// A browser as plain values: its name and command.
pub open spec fn browser_view(b: BrowserInfo) -> (Seq<char>, Option<Seq<char>>) {
    (b.name@, opt_text(b.command))
}

pub open spec fn browsers_view(bs: Seq<BrowserInfo>) -> Seq<(Seq<char>, Option<Seq<char>>)> {
    bs.map_values(|b: BrowserInfo| browser_view(b))
}

/// The browser a start-menu entry describes.
pub open spec fn entry_browser(e: StartMenuEntry) -> (Seq<char>, Option<Seq<char>>) {
    (
        match non_blank(opt_text(e.default_value)) {
            Some(v) => v,
            None => e.key_name@,
        },
        opt_text(e.command),
    )
}

/// The browsers the start-menu entries describe, in order, each name (up to ASCII case) once.
pub open spec fn browsers_of(entries: Seq<StartMenuEntry>) -> Seq<(Seq<char>, Option<Seq<char>>)>
    decreases entries.len(),
{
    if entries.len() == 0 {
        Seq::empty()
    } else {
        let r = browsers_of(entries.drop_last());
        let b = entry_browser(entries.last());
        if exists|i: int| 0 <= i < r.len() && eq_ignore_case(#[trigger] r[i].0, b.0) {
            r
        } else {
            r.push(b)
        }
    }
}

/// The installed browsers, from the start-menu entries of the current user's and then the
/// machine's registry hive.
pub fn discover_browsers(entries: Vec<StartMenuEntry>) -> (r: Vec<BrowserInfo>)
    ensures
        browsers_view(r@) == browsers_of(entries@),
{
    let ghost all = entries@;
    let mut browsers: Vec<BrowserInfo> = Vec::new();
    let mut i: usize = 0;
    while i < entries.len()
        invariant
            i <= entries@.len(),
            all == entries@,
            browsers_view(browsers@) == browsers_of(all.take(i as int)),
        decreases entries.len() - i,
    {
        let e = &entries[i];
        let b = browser_info(e.key_name.clone(), clone_opt_text(&e.default_value), clone_opt_text(&e.command));
        proof {
            assert(all.take(i + 1).drop_last() =~= all.take(i as int));
            assert(all.take(i + 1).last() == all[i as int]);
            assert(browser_view(b) == entry_browser(all[i as int]));
        }
        let ghost before = browsers@;
        push_unique_browser(&mut browsers, b);
        proof {
            let r = browsers_view(before);
            if exists|k: int| 0 <= k < before.len() && eq_ignore_case(#[trigger] before[k].name@, b.name@) {
                let k = choose|k: int| 0 <= k < before.len() && eq_ignore_case(#[trigger] before[k].name@, b.name@);
                assert(r[k].0 == before[k].name@);
            } else {
                assert forall|k: int| 0 <= k < r.len() implies !eq_ignore_case(#[trigger] r[k].0, browser_view(b).0) by {
                    assert(r[k].0 == before[k].name@);
                }
                assert(browsers_view(browsers@) =~= r.push(browser_view(b)));
            }
        }
        i += 1;
    }
    proof {
        assert(all.take(i as int) =~= all);
    }
    browsers
}

/// The class key of a scheme as read from one registry hive: whether it has a `URL Protocol`
/// value, its default value, and its open command.
#[derive(Debug, Clone)]
pub struct ProtocolClassEntry {
    pub has_url_protocol: bool,
    pub default_value: Option<String>,
    pub command: Option<String>,
}

/// The handler of `scheme` given its class key in each hive, in hive order (`None` where the
/// key is missing): the first key that declares a `URL Protocol`.
pub open spec fn protocol_handler_of(scheme: Seq<char>, hives: Seq<Option<ProtocolClassEntry>>) -> Option<
    (Seq<char>, Option<Seq<char>>),
>
    decreases hives.len(),
{
    if hives.len() == 0 {
        None
    } else if hives[0] is Some && hives[0]->0.has_url_protocol {
        let e = hives[0]->0;
        Some(
            (
                match non_blank(opt_text(e.default_value)) {
                    Some(v) => v,
                    None => scheme + " handler"@,
                },
                opt_text(e.command),
            ),
        )
    } else {
        protocol_handler_of(scheme, hives.drop_first())
    }
}

/// Whether a hive's class key for a scheme declares a `URL Protocol`.
pub open spec fn declares_url_protocol(hive: Option<ProtocolClassEntry>) -> bool {
    match hive {
        Some(e) => e.has_url_protocol,
        None => false,
    }
}

/// Law: the first hive, in the order given (the current user's before the machine's), whose
/// class key declares a `URL Protocol` supplies the handler, whatever later hives hold: its
/// name is the key's default value where that is present and not blank, else `<scheme>
/// handler`, and its command is the key's open command. Where no hive declares one, there is no
/// handler.
pub proof fn lemma_first_declaring_hive_wins(scheme: Seq<char>, hives: Seq<Option<ProtocolClassEntry>>)
    ensures
        forall|k: int|
            0 <= k < hives.len() && #[trigger] declares_url_protocol(hives[k]) && (forall|j: int|
                0 <= j < k ==> !declares_url_protocol(hives[j])) ==> protocol_handler_of(scheme, hives)
                == Some(
                (
                    match opt_text(hives[k]->0.default_value) {
                        Some(v) => if trim(v).len() > 0 {
                            v
                        } else {
                            scheme + " handler"@
                        },
                        None => scheme + " handler"@,
                    },
                    opt_text(hives[k]->0.command),
                ),
            ),
        (forall|j: int| 0 <= j < hives.len() ==> !declares_url_protocol(hives[j])) ==> protocol_handler_of(
            scheme,
            hives,
        ) is None,
    decreases hives.len(),
{
    if hives.len() > 0 {
        let rest = hives.drop_first();
        lemma_first_declaring_hive_wins(scheme, rest);
        assert forall|j: int| 0 <= j < rest.len() implies rest[j] == hives[j + 1] by {}
        assert forall|k: int|
            0 <= k < hives.len() && #[trigger] declares_url_protocol(hives[k]) && (forall|j: int|
                0 <= j < k ==> !declares_url_protocol(hives[j])) implies protocol_handler_of(scheme, hives)
                == Some(
                (
                    match opt_text(hives[k]->0.default_value) {
                        Some(v) => if trim(v).len() > 0 {
                            v
                        } else {
                            scheme + " handler"@
                        },
                        None => scheme + " handler"@,
                    },
                    opt_text(hives[k]->0.command),
                ),
            ) by {
            if k > 0 {
                assert(!declares_url_protocol(hives[0]));
                assert(rest[k - 1] == hives[k]);
                assert(declares_url_protocol(rest[k - 1]));
                assert forall|j: int| 0 <= j < k - 1 implies !declares_url_protocol(rest[j]) by {
                    assert(rest[j] == hives[j + 1]);
                }
            }
        }
        if forall|j: int| 0 <= j < hives.len() ==> !declares_url_protocol(hives[j]) {
            assert(!declares_url_protocol(hives[0]));
            assert forall|j: int| 0 <= j < rest.len() implies !declares_url_protocol(rest[j]) by {
                assert(rest[j] == hives[j + 1]);
            }
        }
    }
}

/// The registered handler of `scheme`, from its class key in the current user's and then the
/// machine's registry hive.
pub fn discover_protocol_handler(scheme: &str, hives: Vec<Option<ProtocolClassEntry>>) -> (r: Option<
    ProtocolInfo,
>)
    ensures
        match r {
            Some(info) => protocol_handler_of(scheme@, hives@) == Some(
                (info.name@, opt_text(info.command)),
            ),
            None => protocol_handler_of(scheme@, hives@) is None,
        },
{
    let ghost all = hives@;
    let mut i: usize = 0;
    proof {
        assert(all.skip(0) =~= all);
    }
    while i < hives.len()
        invariant
            i <= hives@.len(),
            all == hives@,
            protocol_handler_of(scheme@, all) == protocol_handler_of(scheme@, all.skip(i as int)),
        decreases hives.len() - i,
    {
        proof {
            assert(all.skip(i as int)[0] == all[i as int]);
            assert(all.skip(i as int).drop_first() =~= all.skip(i + 1));
        }
        match &hives[i] {
            Some(entry) => {
                if entry.has_url_protocol {
                    return Some(
                        protocol_info(
                            scheme,
                            clone_opt_text(&entry.default_value),
                            clone_opt_text(&entry.command),
                        ),
                    );
                }
            },
            None => {},
        }
        i += 1;
    }
    None
}

/// An app's `AppUriHandlers` key as read from the registry: the app's key name, and the names
/// and texts under the key (see `app_uri_handlers_match_domain`).
#[derive(Debug, Clone)]
pub struct AppUriHandlerKey {
    pub app_key_name: String,
    pub entries: Vec<String>,
}

/// The candidates of the apps whose URI handlers cover `domain` (taken in lower case), in
/// order.
pub open spec fn app_uri_candidates_of(domain: Seq<char>, apps: Seq<AppUriHandlerKey>) -> Seq<
    OpenCandidateView,
>
    decreases apps.len(),
{
    if apps.len() == 0 {
        Seq::empty()
    } else {
        let r = app_uri_candidates_of(domain, apps.drop_last());
        let a = apps.last();
        if exists|i: int|
            0 <= i < a.entries@.len() && domain_pattern_match(#[trigger] a.entries@[i]@, lower(domain)) {
            r.push(app_uri_candidate(a.app_key_name@, lower(domain)))
        } else {
            r
        }
    }
}

/// The candidates of the apps that declare themselves handlers for the website `domain`, from
/// the `AppUriHandlers` keys of the current user's and then the machine's registry hive.
pub fn discover_app_uri_handlers(domain: &str, apps: Vec<AppUriHandlerKey>) -> (r: Vec<OpenCandidate>)
    ensures
        crate::models::candidates_view(r@) == app_uri_candidates_of(domain@, apps@),
{
    let lowered = string_from(&lower_chars(&chars_of(domain)));
    let ghost all = apps@;
    let mut candidates: Vec<OpenCandidate> = Vec::new();
    let mut i: usize = 0;
    while i < apps.len()
        invariant
            i <= apps@.len(),
            all == apps@,
            lowered@ == lower(domain@),
            crate::models::candidates_view(candidates@) == app_uri_candidates_of(domain@, all.take(i as int)),
        decreases apps.len() - i,
    {
        let app = &apps[i];
        proof {
            assert(all.take(i + 1).drop_last() =~= all.take(i as int));
            assert(all.take(i + 1).last() == all[i as int]);
        }
        if app_uri_handlers_match_domain(&app.entries, lowered.as_str()) {
            let c = app_uri_handler_candidate(app.app_key_name.as_str(), lowered.as_str());
            let ghost before = candidates@;
            candidates.push(c);
            proof {
                assert(crate::models::candidates_view(candidates@) =~= crate::models::candidates_view(before).push(c@));
            }
        }
        i += 1;
    }
    proof {
        assert(all.take(i as int) =~= all);
    }
    candidates
}

} // verus!
