//! Normalisation of the patterns that domain and protocol rules are written with.
use vstd::prelude::*;
use crate::text::{
    chars_of, concat, lower, lower_char, lower_chars, opt_text, trim_end, trim_start, slice_of, string_from, trim, trim_chars, trim_end_char,
    trim_start_pair,
};
use crate::urls::{ParsedUrl, parse_url, parsed_view, url_parse};

verus! {

/// The part of `s` before the first `c` (all of `s` where there is none): what
/// `s.split(c).next()` yields.
pub open spec fn before_char(s: Seq<char>, c: char) -> Seq<char>
    decreases s.len(),
{
    if s.len() == 0 {
        s
    } else if s[0] == c {
        Seq::empty()
    } else {
        seq![s[0]] + before_char(s.drop_first(), c)
    }
}

/// The pieces of `s` between the occurrences of `c`, as `s.split(c)` yields them (always at
/// least one piece, possibly empty).
pub open spec fn split_on(s: Seq<char>, c: char) -> Seq<Seq<char>>
    decreases s.len(),
{
    if s.len() == 0 {
        seq![Seq::empty()]
    } else {
        let r = split_on(s.drop_last(), c);
        if s.last() == c {
            r.push(Seq::empty())
        } else {
            r.update(r.len() - 1, r.last().push(s.last()))
        }
    }
}

/// The non-empty pieces of `pieces`, in order.
pub open spec fn non_empty(pieces: Seq<Seq<char>>) -> Seq<Seq<char>>
    decreases pieces.len(),
{
    if pieces.len() == 0 {
        pieces
    } else if pieces.last().len() > 0 {
        non_empty(pieces.drop_last()).push(pieces.last())
    } else {
        non_empty(pieces.drop_last())
    }
}

/// The host text that the root domain is read from: the parsed URL's domain, where the text
/// parses as a URL with a domain, else the text itself.
pub open spec fn host_text(trimmed: Seq<char>, parsed: Option<(Seq<char>, Option<Seq<char>>)>) -> Seq<
    char,
> {
    match parsed {
        Some((_, Some(d))) => d,
        _ => trimmed,
    }
}

/// The host text cut at the first `/` and the first `:`, trimmed, with trailing dots and
/// leading `*.` removed, in lower case.
pub open spec fn cleaned_host(host: Seq<char>) -> Seq<char> {
    lower(trim_start_pair(trim_end_char(trim(before_char(before_char(host, '/'), ':')), '.'), '*', '.'))
}

/// The non-empty dot-separated labels of a cleaned host.
pub open spec fn domain_labels(host: Seq<char>) -> Seq<Seq<char>> {
    non_empty(split_on(cleaned_host(host), '.'))
}

/// The root domain named by `input`, given what the URL parser made of its trimmed text: the
/// last two labels of the host joined by a dot; `None` where the input is blank or the host has
/// fewer than two labels.
pub open spec fn root_domain_given(input: Seq<char>, parsed: Option<(Seq<char>, Option<Seq<char>>)>) -> Option<
    Seq<char>,
> {
    let labels = domain_labels(host_text(trim(input), parsed));
    if trim(input).len() == 0 || labels.len() < 2 {
        None
    } else {
        Some(labels[labels.len() - 2] + seq!['.'] + labels[labels.len() - 1])
    }
}

/// The root domain named by `input`, as `normalize_root_domain` computes it.
pub open spec fn root_domain(input: Seq<char>) -> Option<Seq<char>> {
    root_domain_given(input, url_parse(trim(input)))
}

/// A character that may stand in a URI scheme: an ASCII letter or digit, `+`, `-` or `.`.
pub open spec fn is_scheme_char(c: char) -> bool {
    ('a' <= c && c <= 'z') || ('A' <= c && c <= 'Z') || ('0' <= c && c <= '9') || c == '+' || c
        == '-' || c == '.'
}

/// The protocol scheme named by `input`: trimmed, trailing colons removed, in lower case;
/// `None` where that is empty or holds a character that a scheme may not hold.
pub open spec fn protocol_scheme(input: Seq<char>) -> Option<Seq<char>> {
    let s = lower(trim_end_char(trim(input), ':'));
    if s.len() == 0 || exists|i: int| 0 <= i < s.len() && !is_scheme_char(#[trigger] s[i]) {
        None
    } else {
        Some(s)
    }
}

/// Law: a normalised scheme normalises to itself, so a rule saved with the normalised scheme
/// keeps matching what it was saved for.
pub proof fn lemma_protocol_scheme_idempotent(input: Seq<char>)
    ensures
        match protocol_scheme(input) {
            Some(t) => protocol_scheme(t) == Some(t),
            None => true,
        },
{
    if let Some(t) = protocol_scheme(input) {
        crate::text::lemma_lower_idempotent(trim_end_char(trim(input), ':'));
        assert(is_scheme_char(t[0]));
        assert(is_scheme_char(t.last()));
        assert(trim_start(t) == t);
        assert(trim_end(t) == t);
        assert(trim(t) == t);
        assert(trim_end_char(t, ':') == t);
        assert(lower(t) == t);
    }
}

/// The texts of a sequence of character vectors.
pub open spec fn texts(v: Seq<Vec<char>>) -> Seq<Seq<char>> {
    v.map_values(|x: Vec<char>| x@)
}

pub proof fn lemma_split_on_not_empty(s: Seq<char>, c: char)
    ensures
        split_on(s, c).len() >= 1,
    decreases s.len(),
{
    if s.len() > 0 {
        lemma_split_on_not_empty(s.drop_last(), c);
    }
}

/// Every character of `s` is already in lower case.
pub open spec fn is_lower_text(s: Seq<char>) -> bool {
    forall|i: int| 0 <= i < s.len() ==> lower_char(#[trigger] s[i]) == s[i]
}

/// Every piece of `pieces` is in lower case.
pub open spec fn lower_pieces(pieces: Seq<Seq<char>>) -> bool {
    forall|k: int| 0 <= k < pieces.len() ==> is_lower_text(#[trigger] pieces[k])
}

proof fn lemma_split_on_lower(s: Seq<char>, c: char)
    requires
        is_lower_text(s),
    ensures
        lower_pieces(split_on(s, c)),
    decreases s.len(),
{
    if s.len() > 0 {
        let t = s.drop_last();
        assert(is_lower_text(t)) by {
            assert forall|i: int| 0 <= i < t.len() implies lower_char(#[trigger] t[i]) == t[i] by {
                assert(t[i] == s[i]);
            }
        }
        lemma_split_on_lower(t, c);
        lemma_split_on_not_empty(t, c);
        let r = split_on(t, c);
        if s.last() != c {
            let l = r.last().push(s.last());
            assert(lower_char(s[s.len() - 1]) == s[s.len() - 1]);
            assert(is_lower_text(r.last()));
            assert(is_lower_text(l)) by {
                assert forall|i: int| 0 <= i < l.len() implies lower_char(#[trigger] l[i]) == l[i] by {
                    if i < r.last().len() {
                        assert(l[i] == r.last()[i]);
                    }
                }
            }
            let u = r.update(r.len() - 1, l);
            assert forall|k: int| 0 <= k < u.len() implies is_lower_text(#[trigger] u[k]) by {
                if k < r.len() - 1 {
                    assert(u[k] == r[k]);
                }
            }
        } else {
            let u = r.push(Seq::<char>::empty());
            assert forall|k: int| 0 <= k < u.len() implies is_lower_text(#[trigger] u[k]) by {
                if k < r.len() {
                    assert(u[k] == r[k]);
                }
            }
        }
    }
}

proof fn lemma_non_empty_lower(pieces: Seq<Seq<char>>)
    requires
        lower_pieces(pieces),
    ensures
        lower_pieces(non_empty(pieces)),
    decreases pieces.len(),
{
    if pieces.len() > 0 {
        let t = pieces.drop_last();
        assert(lower_pieces(t)) by {
            assert forall|k: int| 0 <= k < t.len() implies is_lower_text(#[trigger] t[k]) by {
                assert(t[k] == pieces[k]);
            }
        }
        lemma_non_empty_lower(t);
        if pieces.last().len() > 0 {
            let r = non_empty(t);
            let u = r.push(pieces.last());
            assert(is_lower_text(pieces[pieces.len() - 1]));
            assert forall|k: int| 0 <= k < u.len() implies is_lower_text(#[trigger] u[k]) by {
                if k < r.len() {
                    assert(u[k] == r[k]);
                }
            }
        }
    }
}

/// A root domain is in lower case.
pub proof fn lemma_root_domain_lower(input: Seq<char>, parsed: Option<(Seq<char>, Option<Seq<char>>)>)
    ensures
        match root_domain_given(input, parsed) {
            Some(r) => is_lower_text(r),
            None => true,
        },
{
    let h = cleaned_host(host_text(trim(input), parsed));
    assert(is_lower_text(h)) by {
        let x = trim_start_pair(trim_end_char(trim(before_char(before_char(host_text(trim(input), parsed), '/'), ':')), '.'), '*', '.');
        assert forall|i: int| 0 <= i < h.len() implies lower_char(#[trigger] h[i]) == h[i] by {
            assert(h[i] == lower_char(x[i]));
        }
    }
    lemma_split_on_lower(h, '.');
    lemma_non_empty_lower(split_on(h, '.'));
    let labels = domain_labels(host_text(trim(input), parsed));
    if let Some(r) = root_domain_given(input, parsed) {
        let a = labels[labels.len() - 2];
        let b = labels[labels.len() - 1];
        assert(is_lower_text(a));
        assert(is_lower_text(b));
        assert(r == a + seq!['.'] + b);
        assert forall|i: int| 0 <= i < r.len() implies lower_char(#[trigger] r[i]) == r[i] by {
            if i < a.len() {
                assert(r[i] == a[i]);
            } else if i == a.len() {
                assert(r[i] == '.');
            } else {
                assert(r[i] == b[i - a.len() - 1]);
            }
        }
    }
}

/// `s` up to its first `c`.
pub fn chars_before(s: &[char], c: char) -> (r: Vec<char>)
    ensures
        r@ == before_char(s@, c),
{
    let mut i: usize = 0;
    while i < s.len() && s[i] != c
        invariant
            i <= s@.len(),
            forall|k: int| 0 <= k < i ==> s@[k] != c,
        decreases s.len() - i,
    {
        i += 1;
    }
    let r = slice_of(s, 0, i);
    proof {
        lemma_before_char_prefix(s@, c, i as int);
    }
    r
}

proof fn lemma_before_char_prefix(s: Seq<char>, c: char, i: int)
    requires
        0 <= i <= s.len(),
        forall|k: int| 0 <= k < i ==> s[k] != c,
        i == s.len() || s[i] == c,
    ensures
        before_char(s, c) == s.subrange(0, i),
    decreases s.len(),
{
    if s.len() > 0 && i > 0 {
        lemma_before_char_prefix(s.drop_first(), c, i - 1);
        assert(s.subrange(0, i) =~= seq![s[0]] + s.drop_first().subrange(0, i - 1));
    } else {
        assert(s.subrange(0, i) =~= Seq::<char>::empty());
        if s.len() == 0 {
            assert(s =~= Seq::<char>::empty());
        }
    }
}

/// `s` without its trailing copies of `c`.
pub fn chars_trim_end(s: &[char], c: char) -> (r: Vec<char>)
    ensures
        r@ == trim_end_char(s@, c),
{
    let mut r = slice_of(s, 0, s.len());
    proof {
        assert(s@.subrange(0, s@.len() as int) =~= s@);
    }
    while r.len() > 0 && r[r.len() - 1] == c
        invariant
            trim_end_char(s@, c) == trim_end_char(r@, c),
        decreases r.len(),
    {
        r.pop();
    }
    r
}

/// `s` without its leading copies of the pair `a b`.
pub fn chars_trim_start_pair(s: &[char], a: char, b: char) -> (r: Vec<char>)
    ensures
        r@ == trim_start_pair(s@, a, b),
{
    let mut i: usize = 0;
    proof {
        assert(s@.skip(0) =~= s@);
    }
    while s.len() - i >= 2 && s[i] == a && s[i + 1] == b
        invariant
            i <= s@.len(),
            trim_start_pair(s@, a, b) == trim_start_pair(s@.skip(i as int), a, b),
        decreases s.len() - i,
    {
        proof {
            assert(s@.skip(i as int).skip(2) =~= s@.skip(i + 2));
        }
        i += 2;
    }
    let r = slice_of(s, i, s.len());
    proof {
        assert(s@.skip(i as int) =~= s@.subrange(i as int, s@.len() as int));
    }
    r
}

/// The non-empty dot-separated labels of `s`.
pub fn split_labels(s: &[char]) -> (r: Vec<Vec<char>>)
    ensures
        texts(r@) == non_empty(split_on(s@, '.')),
{
    let mut labels: Vec<Vec<char>> = Vec::new();
    let mut cur: Vec<char> = Vec::new();
    let mut i: usize = 0;
    proof {
        assert(s@.take(0) =~= Seq::<char>::empty());
        assert(texts(labels@) =~= non_empty(split_on(s@.take(0), '.').drop_last()));
    }
    while i < s.len()
        invariant
            i <= s@.len(),
            split_on(s@.take(i as int), '.').len() >= 1,
            cur@ == split_on(s@.take(i as int), '.').last(),
            texts(labels@) == non_empty(split_on(s@.take(i as int), '.').drop_last()),
        decreases s.len() - i,
    {
        let ghost prev = split_on(s@.take(i as int), '.');
        proof {
            assert(s@.take(i + 1).drop_last() =~= s@.take(i as int));
            assert(s@.take(i + 1).last() == s@[i as int]);
        }
        if s[i] == '.' {
            proof {
                assert(split_on(s@.take(i + 1), '.') == prev.push(Seq::empty()));
                assert(prev.push(Seq::<char>::empty()).drop_last() =~= prev);
                assert(prev =~= prev.drop_last().push(prev.last()));
            }
            if cur.len() > 0 {
                let done = cur;
                labels.push(done);
                proof {
                    assert(texts(labels@) =~= texts(labels@.drop_last()).push(labels@.last()@));
                }
            }
            cur = Vec::new();
        } else {
            proof {
                assert(prev.update(prev.len() - 1, prev.last().push(s@[i as int])).drop_last() =~= prev.drop_last());
            }
            cur.push(s[i]);
        }
        i += 1;
    }
    proof {
        let all = split_on(s@.take(i as int), '.');
        assert(s@.take(i as int) =~= s@);
        assert(all =~= all.drop_last().push(all.last()));
    }
    if cur.len() > 0 {
        labels.push(cur);
        proof {
            assert(texts(labels@) =~= texts(labels@.drop_last()).push(labels@.last()@));
        }
    }
    labels
}

/// The root domain named by `input`, given what `url::Url::parse` made of the trimmed input.
pub fn normalize_root_domain_given(input: &str, parsed: &Option<ParsedUrl>) -> (r: Option<String>)
    ensures
        opt_text(r) == root_domain_given(input@, parsed_view(*parsed)),
{
    let chars = chars_of(input);
    let trimmed = trim_chars(&chars);
    if trimmed.len() == 0 {
        return None;
    }
    let host: Vec<char> = match parsed {
        Some(ParsedUrl { scheme: _, domain: Some(d) }) => chars_of(d.as_str()),
        _ => slice_of(&trimmed, 0, trimmed.len()),
    };
    proof {
        assert(trimmed@.subrange(0, trimmed@.len() as int) =~= trimmed@);
        assert(host@ == host_text(trim(input@), parsed_view(*parsed)));
    }
    let host = chars_before(&host, '/');
    let host = chars_before(&host, ':');
    let host = trim_chars(&host);
    let host = chars_trim_end(&host, '.');
    let host = chars_trim_start_pair(&host, '*', '.');
    let host = lower_chars(&host);
    let labels = split_labels(&host);
    let n = labels.len();
    if n < 2 {
        return None;
    }
    proof {
        assert(texts(labels@)[n - 2] == labels@[n - 2]@);
        assert(texts(labels@)[n - 1] == labels@[n - 1]@);
    }
    let joined = concat(&labels[n - 2], &['.']);
    let joined = concat(&joined, &labels[n - 1]);
    Some(string_from(&joined))
}

/// The root domain that a domain rule or a URL names: `api.example.com`, `*.Example.COM.` and
/// `https://www.example.com/path` all name `example.com`. `None` where the input is blank or
/// names no domain with two labels.
pub fn normalize_root_domain(input: &str) -> (r: Option<String>)
    ensures
        opt_text(r) == root_domain(input@),
{
    let chars = chars_of(input);
    let trimmed = trim_chars(&chars);
    if trimmed.len() == 0 {
        return None;
    }
    let trimmed_text = string_from(&trimmed);
    let parsed = parse_url(trimmed_text.as_str());
    normalize_root_domain_given(input, &parsed)
}

/// The protocol scheme that a protocol rule or a URL names: `MAILTO:` names `mailto`. `None`
/// where nothing is left, or a character is left that no scheme holds.
pub fn normalize_protocol_scheme(input: &str) -> (r: Option<String>)
    ensures
        opt_text(r) == protocol_scheme(input@),
{
    let chars = chars_of(input);
    let trimmed = trim_chars(&chars);
    let stripped = chars_trim_end(&trimmed, ':');
    let scheme = lower_chars(&stripped);
    if scheme.len() == 0 {
        return None;
    }
    let mut i: usize = 0;
    while i < scheme.len()
        invariant
            i <= scheme@.len(),
            scheme@ == lower(trim_end_char(trim(input@), ':')),
            forall|k: int| 0 <= k < i ==> is_scheme_char(#[trigger] scheme@[k]),
        decreases scheme.len() - i,
    {
        let c = scheme[i];
        let ok = ('a' <= c && c <= 'z') || ('A' <= c && c <= 'Z') || ('0' <= c && c <= '9') || c
            == '+' || c == '-' || c == '.';
        if !ok {
            proof {
                assert(!is_scheme_char(lower(trim_end_char(trim(input@), ':'))[i as int]));
            }
            return None;
        }
        i += 1;
    }
    Some(string_from(&scheme))
}

} // verus!
