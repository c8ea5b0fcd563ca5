//! The history and favorites lists: recording a visit, toggling a favorite, and the order both
//! lists are kept in (most recent first).
use vstd::prelude::*;
use crate::models::{
    FavoriteEntry, FavoriteEntryView, HistoryEntry, HistoryEntryView, Timestamp,
    favorites_view, history_view,
};
use crate::clock::current_time;
use crate::sorting::{is_stable_sort, stable_sort_by_keys, stable_sort_witness};

verus! {

/// The position of the first entry for `url`.
pub open spec fn history_index(entries: Seq<HistoryEntryView>, url: Seq<char>) -> Option<int>
    decreases entries.len(),
{
    if entries.len() == 0 {
        None
    } else if entries[0].url == url {
        Some(0)
    } else {
        match history_index(entries.drop_first(), url) {
            Some(i) => Some(i + 1),
            None => None,
        }
    }
}

/// The entries after a visit of `url` at `now`, before sorting: the first entry for the URL is
/// last seen now and counted once more; a URL not seen before gets a new entry at the end.
pub open spec fn visited(entries: Seq<HistoryEntryView>, url: Seq<char>, now: Timestamp) -> Seq<
    HistoryEntryView,
> {
    match history_index(entries, url) {
        Some(i) => entries.update(
            i,
            HistoryEntryView {
                last_seen_at: now,
                open_count: (entries[i].open_count + 1) as u64,
                ..entries[i]
            },
        ),
        None => entries.push(
            HistoryEntryView { url, first_seen_at: now, last_seen_at: now, open_count: 1 },
        ),
    }
}

/// The sort key of a point in time for a most-recent-first order.
pub open spec fn recent_first_key(t: Timestamp) -> Seq<i128> {
    seq![(-(t.seconds as int)) as i128, (-(t.nanos as int)) as i128]
}

/// Sort keys that put the most recently seen entries first.
pub open spec fn history_keys(entries: Seq<HistoryEntryView>) -> Seq<Seq<i128>> {
    Seq::new(entries.len(), |i: int| recent_first_key(entries[i].last_seen_at))
}

/// A visit of `url` can be counted: the entry that would be counted has not reached the
/// largest count.
pub open spec fn can_count_visit(entries: Seq<HistoryEntryView>, url: Seq<char>) -> bool {
    match history_index(entries, url) {
        Some(i) => entries[i].open_count < u64::MAX,
        None => true,
    }
}

/// `out` is the history after a visit of `url` at `now` to `entries`: the visited list sorted
/// most recently seen first, stably.
pub open spec fn history_recorded(
    entries: Seq<HistoryEntryView>,
    url: Seq<char>,
    now: Timestamp,
    out: Seq<HistoryEntryView>,
) -> bool {
    is_stable_sort(visited(entries, url, now), history_keys(visited(entries, url, now)), out)
}

/// No two entries are for the same URL.
pub open spec fn distinct_history_urls(entries: Seq<HistoryEntryView>) -> bool {
    forall|i: int, j: int|
        0 <= i < entries.len() && 0 <= j < entries.len() && i != j ==> #[trigger] entries[i].url
            != #[trigger] entries[j].url
}

/// `a` is no later than `b`.
pub open spec fn no_later(a: Timestamp, b: Timestamp) -> bool {
    a.seconds < b.seconds || (a.seconds == b.seconds && a.nanos <= b.nanos)
}

fn recent_first_key_of(t: Timestamp) -> (r: Vec<i128>)
    ensures
        r@ == recent_first_key(t),
{
    let mut r: Vec<i128> = Vec::new();
    r.push(-(t.seconds as i128));
    r.push(-(t.nanos as i128));
    proof {
        assert(r@ =~= recent_first_key(t));
    }
    r
}

fn find_history(entries: &Vec<HistoryEntry>, url: &str) -> (r: Option<usize>)
    ensures
        match history_index(history_view(entries@), url@) {
            Some(i) => r == Some(i as usize),
            None => r is None,
        },
{
    let ghost all = history_view(entries@);
    let target = url.to_owned();
    let mut i: usize = 0;
    while i < entries.len()
        invariant
            i <= entries@.len(),
            all == history_view(entries@),
            target@ == url@,
            forall|k: int| 0 <= k < i ==> all[k].url != url@,
        decreases entries.len() - i,
    {
        if entries[i].url == target {
            proof {
                lemma_history_index_first(all, url@, i as int);
            }
            return Some(i);
        }
        i += 1;
    }
    proof {
        lemma_history_index_none(all, url@);
    }
    None
}

proof fn lemma_history_index_first(entries: Seq<HistoryEntryView>, url: Seq<char>, i: int)
    requires
        0 <= i < entries.len(),
        entries[i].url == url,
        forall|k: int| 0 <= k < i ==> entries[k].url != url,
    ensures
        history_index(entries, url) == Some(i),
    decreases i,
{
    if i > 0 {
        lemma_history_index_first(entries.drop_first(), url, i - 1);
    }
}

proof fn lemma_history_index_none(entries: Seq<HistoryEntryView>, url: Seq<char>)
    requires
        forall|k: int| 0 <= k < entries.len() ==> entries[k].url != url,
    ensures
        history_index(entries, url) is None,
    decreases entries.len(),
{
    if entries.len() > 0 {
        lemma_history_index_none(entries.drop_first(), url);
    }
}

pub proof fn lemma_history_index_bounds(entries: Seq<HistoryEntryView>, url: Seq<char>)
    ensures
        match history_index(entries, url) {
            Some(i) => 0 <= i < entries.len() && entries[i].url == url && forall|k: int|
                0 <= k < i ==> entries[k].url != url,
            None => forall|k: int| 0 <= k < entries.len() ==> entries[k].url != url,
        },
    decreases entries.len(),
{
    if entries.len() > 0 {
        lemma_history_index_bounds(entries.drop_first(), url);
        assert forall|k: int| 1 <= k < entries.len() implies entries[k] == entries.drop_first()[k
            - 1] by {}
    }
}

/// Sorts history entries most recently seen first, keeping the order of entries seen at the
/// same time.
fn sort_history(entries: Vec<HistoryEntry>) -> (r: Vec<HistoryEntry>)
    ensures
        is_stable_sort(history_view(entries@), history_keys(history_view(entries@)), history_view(r@)),
{
    let ghost views = history_view(entries@);
    let mut keys: Vec<Vec<i128>> = Vec::new();
    let mut i: usize = 0;
    while i < entries.len()
        invariant
            i <= entries@.len(),
            views == history_view(entries@),
            keys.deep_view() == history_keys(views).take(i as int),
        decreases entries.len() - i,
    {
        let key = recent_first_key_of(entries[i].last_seen_at);
        let ghost before = keys.deep_view();
        proof {
            assert(key.deep_view() =~= key@);
            assert(views[i as int].last_seen_at == entries@[i as int].last_seen_at);
        }
        keys.push(key);
        i += 1;
        proof {
            assert(keys.deep_view() =~= before.push(key@));
            assert(keys.deep_view() =~= history_keys(views).take(i as int));
        }
    }
    proof {
        assert(history_keys(views).take(i as int) =~= history_keys(views));
    }
    let ghost items = entries@;
    let sorted = stable_sort_by_keys(entries, keys);
    proof {
        let p = choose|p: Seq<int>| stable_sort_witness(items, history_keys(views), sorted@, p);
        assert(stable_sort_witness(views, history_keys(views), history_view(sorted@), p));
    }
    sorted
}

/// Records a visit of `url` at `now`: the first entry for the URL is last seen now and counted
/// once more, or a new entry is added; the list is then ordered most recently seen first
/// (stably).
pub fn record_history_at(entries: &mut Vec<HistoryEntry>, url: &str, now: Timestamp)
    requires
        can_count_visit(history_view(old(entries)@), url@),
    ensures
        history_recorded(history_view(old(entries)@), url@, now, history_view(final(entries)@)),
{
    let ghost old_view = history_view(entries@);
    proof {
        lemma_history_index_bounds(old_view, url@);
    }
    match find_history(entries, url) {
        Some(i) => {
            let mut entry = entries.remove(i);
            entry.last_seen_at = now;
            entry.open_count = entry.open_count + 1;
            entries.insert(i, entry);
            proof {
                assert(history_view(entries@) =~= visited(old_view, url@, now));
            }
        },
        None => {
            let entry = HistoryEntry::new(url.to_owned(), now);
            entries.push(entry);
            proof {
                assert(history_view(entries@) =~= visited(old_view, url@, now));
            }
        },
    }
    let mut taken: Vec<HistoryEntry> = Vec::new();
    core::mem::swap(entries, &mut taken);
    let sorted = sort_history(taken);
    *entries = sorted;
}

/// Records a visit of `url` now (see `record_history_at`).
pub fn record_history(entries: &mut Vec<HistoryEntry>, url: &str)
    requires
        can_count_visit(history_view(old(entries)@), url@),
    ensures
        exists|now: Timestamp|
            history_recorded(history_view(old(entries)@), url@, now, history_view(final(entries)@)),
{
    let now = current_time();
    record_history_at(entries, url, now);
}

/// Whether a visit of `url` can be counted: its entry, where there is one, has not reached the
/// largest count a `u64` holds.
pub fn can_record_visit(entries: &Vec<HistoryEntry>, url: &str) -> (r: bool)
    ensures
        r == can_count_visit(history_view(entries@), url@),
{
    proof {
        lemma_history_index_bounds(history_view(entries@), url@);
    }
    let found = find_history(entries, url);
    match found {
        Some(i) => {
            let ghost k = history_index(history_view(entries@), url@)->0;
            assert(entries@.len() == entries.len());
            assert((k as usize) as int == k);
            assert(history_view(entries@)[k] == entries@[k]@);
            let count = entries[i].open_count;
            count < u64::MAX
        },
        None => true,
    }
}

/// Law: recording a visit in a history with one entry per URL keeps one entry per URL; the
/// entry for the URL is last seen at the visit and counted once more (once, for a URL not seen
/// before); the list grows only for a new URL; and the list is ordered most recently seen
/// first.
pub proof fn lemma_record_history_counts(
    entries: Seq<HistoryEntryView>,
    url: Seq<char>,
    now: Timestamp,
    out: Seq<HistoryEntryView>,
)
    requires
        distinct_history_urls(entries),
        can_count_visit(entries, url),
        history_recorded(entries, url, now, out),
    ensures
        distinct_history_urls(out),
        out.len() == entries.len() + if history_index(entries, url) is Some {
            0int
        } else {
            1int
        },
        exists|k: int|
            0 <= k < out.len() && #[trigger] out[k].url == url && out[k].last_seen_at == now
                && out[k].open_count == match history_index(entries, url) {
                Some(i) => entries[i].open_count + 1,
                None => 1int,
            },
        forall|k1: int, k2: int|
            0 <= k1 < k2 < out.len() ==> no_later(#[trigger] out[k2].last_seen_at, #[trigger] out[k1].last_seen_at),
{
    let v = visited(entries, url, now);
    let keys = history_keys(v);
    lemma_history_index_bounds(entries, url);
    let i0 = match history_index(entries, url) {
        Some(i) => i,
        None => entries.len() as int,
    };
    assert(distinct_history_urls(v)) by {
        assert forall|i: int, j: int| 0 <= i < v.len() && 0 <= j < v.len() && i != j implies #[trigger] v[i].url != #[trigger] v[j].url by {
            if history_index(entries, url) is None {
                if i < entries.len() && j < entries.len() {
                    assert(entries[i].url != entries[j].url);
                }
            } else {
                assert(v[i].url == entries[i].url);
                assert(v[j].url == entries[j].url);
            }
        }
    }
    let p = choose|p: Seq<int>| stable_sort_witness(v, keys, out, p);
    crate::sorting::lemma_witness_distinct(v, keys, out, p);
    crate::sorting::lemma_witness_onto(v, keys, out, p);
    assert forall|a: int, b: int| 0 <= a < out.len() && 0 <= b < out.len() && a != b implies #[trigger] out[a].url != #[trigger] out[b].url by {
        assert(out[a] == v[p[a]]);
        assert(out[b] == v[p[b]]);
        assert(p[a] != p[b]);
    }
    assert(crate::sorting::position_taken(p, i0));
    let k = choose|k: int| 0 <= k < p.len() && p[k] == i0;
    assert(out[k] == v[i0]);
    assert(out[k].url == url);
    assert(out[k].last_seen_at == now);
    assert(out[k].open_count == match history_index(entries, url) {
        Some(i) => entries[i].open_count + 1,
        None => 1int,
    });
    assert forall|k1: int, k2: int| 0 <= k1 < k2 < out.len() implies no_later(#[trigger] out[k2].last_seen_at, #[trigger] out[k1].last_seen_at) by {
        assert(crate::sorting::sorts_before(keys, p[k1], p[k2]));
        assert(out[k1] == v[p[k1]]);
        assert(out[k2] == v[p[k2]]);
        let a = out[k1].last_seen_at;
        let b = out[k2].last_seen_at;
        assert(keys[p[k1]] == recent_first_key(a));
        assert(keys[p[k2]] == recent_first_key(b));
        reveal_with_fuel(crate::sorting::lex_lt, 3);
        assert(recent_first_key(a).drop_first() =~= seq![(-(a.nanos as int)) as i128]);
        assert(recent_first_key(b).drop_first() =~= seq![(-(b.nanos as int)) as i128]);
        assert(recent_first_key(a).drop_first().drop_first() =~= Seq::<i128>::empty());
        assert(recent_first_key(b).drop_first().drop_first() =~= Seq::<i128>::empty());
    }
}

/// The position of the first favorite for `url`.
pub open spec fn favorite_index(entries: Seq<FavoriteEntryView>, url: Seq<char>) -> Option<int>
    decreases entries.len(),
{
    if entries.len() == 0 {
        None
    } else if entries[0].url == url {
        Some(0)
    } else {
        match favorite_index(entries.drop_first(), url) {
            Some(i) => Some(i + 1),
            None => None,
        }
    }
}

/// `url` is among the favorites.
pub open spec fn is_favorite_url(entries: Seq<FavoriteEntryView>, url: Seq<char>) -> bool {
    exists|i: int| 0 <= i < entries.len() && #[trigger] entries[i].url == url
}

/// Sort keys that put the most recently added favorites first.
pub open spec fn favorite_keys(entries: Seq<FavoriteEntryView>) -> Seq<Seq<i128>> {
    Seq::new(entries.len(), |i: int| recent_first_key(entries[i].added_at))
}

proof fn lemma_favorite_index_first(entries: Seq<FavoriteEntryView>, url: Seq<char>, i: int)
    requires
        0 <= i < entries.len(),
        entries[i].url == url,
        forall|k: int| 0 <= k < i ==> entries[k].url != url,
    ensures
        favorite_index(entries, url) == Some(i),
    decreases i,
{
    if i > 0 {
        lemma_favorite_index_first(entries.drop_first(), url, i - 1);
    }
}

proof fn lemma_favorite_index_none(entries: Seq<FavoriteEntryView>, url: Seq<char>)
    requires
        forall|k: int| 0 <= k < entries.len() ==> entries[k].url != url,
    ensures
        favorite_index(entries, url) is None,
    decreases entries.len(),
{
    if entries.len() > 0 {
        lemma_favorite_index_none(entries.drop_first(), url);
    }
}

pub proof fn lemma_favorite_index_bounds(entries: Seq<FavoriteEntryView>, url: Seq<char>)
    ensures
        match favorite_index(entries, url) {
            Some(i) => 0 <= i < entries.len() && entries[i].url == url && forall|k: int|
                0 <= k < i ==> entries[k].url != url,
            None => !is_favorite_url(entries, url),
        },
    decreases entries.len(),
{
    if entries.len() > 0 {
        lemma_favorite_index_bounds(entries.drop_first(), url);
        assert forall|k: int| 1 <= k < entries.len() implies entries[k] == entries.drop_first()[k
            - 1] by {}
        if favorite_index(entries, url) is None {
            assert forall|k: int| 0 <= k < entries.len() implies #[trigger] entries[k].url != url by {
                if k > 0 {
                    assert(entries[k] == entries.drop_first()[k - 1]);
                }
            }
        }
    }
}

/// `out` and `added` are what toggling `url` at `now` makes of `entries`: where the URL is a
/// favorite its first entry is removed and `added` is false; otherwise an entry added now is
/// appended, the list sorted most recently added first (stably), and `added` is true.
pub open spec fn favorite_toggled(
    entries: Seq<FavoriteEntryView>,
    url: Seq<char>,
    now: Timestamp,
    out: Seq<FavoriteEntryView>,
    added: bool,
) -> bool {
    &&& added == !is_favorite_url(entries, url)
    &&& match favorite_index(entries, url) {
        Some(i) => out == entries.remove(i),
        None => is_stable_sort(
            entries.push(FavoriteEntryView { url, added_at: now }),
            favorite_keys(entries.push(FavoriteEntryView { url, added_at: now })),
            out,
        ),
    }
}

/// No two favorites are for the same URL.
pub open spec fn distinct_favorite_urls(entries: Seq<FavoriteEntryView>) -> bool {
    forall|i: int, j: int|
        0 <= i < entries.len() && 0 <= j < entries.len() && i != j ==> #[trigger] entries[i].url
            != #[trigger] entries[j].url
}

/// Law: toggling a URL in favorites with one entry per URL adds it where it was no favorite and
/// removes it where it was; afterwards it is a favorite exactly when the toggle says it was
/// added, and there is still one entry per URL.
pub proof fn lemma_toggle_favorite_membership(
    entries: Seq<FavoriteEntryView>,
    url: Seq<char>,
    now: Timestamp,
    out: Seq<FavoriteEntryView>,
    added: bool,
)
    requires
        distinct_favorite_urls(entries),
        favorite_toggled(entries, url, now, out, added),
    ensures
        is_favorite_url(out, url) == added,
        distinct_favorite_urls(out),
        out.len() == if added {
            entries.len() + 1int
        } else {
            entries.len() - 1
        },
{
    lemma_favorite_index_bounds(entries, url);
    match favorite_index(entries, url) {
        Some(i) => {
            assert(is_favorite_url(entries, url)) by {
                assert(entries[i].url == url);
            }
            assert forall|k: int| 0 <= k < out.len() implies #[trigger] out[k].url != url by {
                if k < i {
                    assert(out[k] == entries[k]);
                } else {
                    assert(out[k] == entries[k + 1]);
                    assert(entries[k + 1].url != entries[i].url);
                }
            }
            assert forall|a: int, b: int| 0 <= a < out.len() && 0 <= b < out.len() && a != b implies #[trigger] out[a].url != #[trigger] out[b].url by {
                let ia = if a < i { a } else { a + 1 };
                let ib = if b < i { b } else { b + 1 };
                assert(out[a] == entries[ia]);
                assert(out[b] == entries[ib]);
            }
        },
        None => {
            let v = entries.push(FavoriteEntryView { url, added_at: now });
            let keys = favorite_keys(v);
            assert forall|a: int, b: int| 0 <= a < v.len() && 0 <= b < v.len() && a != b implies #[trigger] v[a].url != #[trigger] v[b].url by {
                if a < entries.len() && b < entries.len() {
                    assert(entries[a].url != entries[b].url);
                } else if a < entries.len() {
                    assert(entries[a].url != url);
                } else {
                    assert(entries[b].url != url);
                }
            }
            let p = choose|p: Seq<int>| stable_sort_witness(v, keys, out, p);
            crate::sorting::lemma_witness_distinct(v, keys, out, p);
            crate::sorting::lemma_witness_onto(v, keys, out, p);
            assert(crate::sorting::position_taken(p, entries.len() as int));
            let k = choose|k: int| 0 <= k < p.len() && p[k] == entries.len() as int;
            assert(out[k] == v[entries.len() as int]);
            assert(out[k].url == url);
            assert forall|a: int, b: int| 0 <= a < out.len() && 0 <= b < out.len() && a != b implies #[trigger] out[a].url != #[trigger] out[b].url by {
                assert(out[a] == v[p[a]]);
                assert(out[b] == v[p[b]]);
                assert(p[a] != p[b]);
            }
        },
    }
}

/// A stable sort of favorites keeps the same URLs.
proof fn lemma_sorted_favorites_same_urls(
    items: Seq<FavoriteEntryView>,
    keys: Seq<Seq<i128>>,
    out: Seq<FavoriteEntryView>,
)
    requires
        is_stable_sort(items, keys, out),
    ensures
        forall|u: Seq<char>| #[trigger] is_favorite_url(out, u) == is_favorite_url(items, u),
{
    let p = choose|p: Seq<int>| stable_sort_witness(items, keys, out, p);
    crate::sorting::lemma_witness_onto(items, keys, out, p);
    assert forall|u: Seq<char>| #[trigger] is_favorite_url(out, u) == is_favorite_url(items, u) by {
        if is_favorite_url(out, u) {
            let k = choose|k: int| 0 <= k < out.len() && #[trigger] out[k].url == u;
            assert(items[p[k]].url == u);
        }
        if is_favorite_url(items, u) {
            let i = choose|i: int| 0 <= i < items.len() && #[trigger] items[i].url == u;
            assert(crate::sorting::position_taken(p, i));
            let k = choose|k: int| 0 <= k < p.len() && p[k] == i;
            assert(out[k].url == u);
        }
    }
}

/// Removing the entry at `i` keeps every URL but that entry's.
proof fn lemma_removed_favorite_urls(entries: Seq<FavoriteEntryView>, i: int, u: Seq<char>)
    requires
        0 <= i < entries.len(),
        entries[i].url != u,
    ensures
        is_favorite_url(entries.remove(i), u) == is_favorite_url(entries, u),
{
    let r = entries.remove(i);
    if is_favorite_url(r, u) {
        let k = choose|k: int| 0 <= k < r.len() && #[trigger] r[k].url == u;
        if k < i {
            assert(entries[k].url == u);
        } else {
            assert(entries[k + 1].url == u);
        }
    }
    if is_favorite_url(entries, u) {
        let k = choose|k: int| 0 <= k < entries.len() && #[trigger] entries[k].url == u;
        if k < i {
            assert(r[k].url == u);
        } else {
            assert(r[k - 1].url == u);
        }
    }
}

/// Law: the second of two toggles of a URL undoes the first. In favorites with one entry per
/// URL, toggling a URL twice (at any times) adds it once and removes it once, in one order or
/// the other, and leaves favorites for exactly the URLs there were before, one entry each.
pub proof fn lemma_toggle_favorite_twice(
    entries: Seq<FavoriteEntryView>,
    url: Seq<char>,
    first_at: Timestamp,
    mid: Seq<FavoriteEntryView>,
    first_added: bool,
    second_at: Timestamp,
    out: Seq<FavoriteEntryView>,
    second_added: bool,
)
    requires
        distinct_favorite_urls(entries),
        favorite_toggled(entries, url, first_at, mid, first_added),
        favorite_toggled(mid, url, second_at, out, second_added),
    ensures
        second_added == !first_added,
        distinct_favorite_urls(out),
        forall|u: Seq<char>| #[trigger] is_favorite_url(out, u) == is_favorite_url(entries, u),
{
    lemma_toggle_favorite_membership(entries, url, first_at, mid, first_added);
    lemma_toggle_favorite_membership(mid, url, second_at, out, second_added);
    lemma_favorite_index_bounds(entries, url);
    lemma_favorite_index_bounds(mid, url);
    if first_added {
        let v = entries.push(FavoriteEntryView { url, added_at: first_at });
        lemma_sorted_favorites_same_urls(v, favorite_keys(v), mid);
        let j = favorite_index(mid, url)->0;
        assert forall|u: Seq<char>| #[trigger] is_favorite_url(out, u) == is_favorite_url(entries, u) by {
            if u != url {
                lemma_removed_favorite_urls(mid, j, u);
                assert(is_favorite_url(v, u) == is_favorite_url(entries, u)) by {
                    if is_favorite_url(v, u) {
                        let k = choose|k: int| 0 <= k < v.len() && #[trigger] v[k].url == u;
                        assert(entries[k].url == u);
                    }
                    if is_favorite_url(entries, u) {
                        let k = choose|k: int| 0 <= k < entries.len() && #[trigger] entries[k].url == u;
                        assert(v[k].url == u);
                    }
                }
            }
        }
    } else {
        let i = favorite_index(entries, url)->0;
        let v = mid.push(FavoriteEntryView { url, added_at: second_at });
        lemma_sorted_favorites_same_urls(v, favorite_keys(v), out);
        assert forall|u: Seq<char>| #[trigger] is_favorite_url(out, u) == is_favorite_url(entries, u) by {
            if u == url {
                assert(v[mid.len() as int].url == u);
                assert(entries[i].url == u);
            } else {
                lemma_removed_favorite_urls(entries, i, u);
                assert(is_favorite_url(v, u) == is_favorite_url(mid, u)) by {
                    if is_favorite_url(v, u) {
                        let k = choose|k: int| 0 <= k < v.len() && #[trigger] v[k].url == u;
                        assert(mid[k].url == u);
                    }
                    if is_favorite_url(mid, u) {
                        let k = choose|k: int| 0 <= k < mid.len() && #[trigger] mid[k].url == u;
                        assert(v[k].url == u);
                    }
                }
            }
        }
    }
}

/// Whether `url` is among the favorites.
pub fn is_favorite(entries: &Vec<FavoriteEntry>, url: &str) -> (r: bool)
    ensures
        r == is_favorite_url(favorites_view(entries@), url@),
{
    let target = url.to_owned();
    let mut i: usize = 0;
    while i < entries.len()
        invariant
            i <= entries@.len(),
            target@ == url@,
            forall|k: int| 0 <= k < i ==> entries@[k].url@ != url@,
        decreases entries.len() - i,
    {
        if entries[i].url == target {
            proof {
                assert(favorites_view(entries@)[i as int].url == url@);
            }
            return true;
        }
        i += 1;
    }
    proof {
        assert forall|k: int| 0 <= k < entries@.len() implies #[trigger] favorites_view(entries@)[k].url != url@ by {
            assert(favorites_view(entries@)[k] == entries@[k]@);
        }
    }
    false
}

fn sort_favorites(entries: Vec<FavoriteEntry>) -> (r: Vec<FavoriteEntry>)
    ensures
        is_stable_sort(favorites_view(entries@), favorite_keys(favorites_view(entries@)), favorites_view(r@)),
{
    let ghost views = favorites_view(entries@);
    let mut keys: Vec<Vec<i128>> = Vec::new();
    let mut i: usize = 0;
    while i < entries.len()
        invariant
            i <= entries@.len(),
            views == favorites_view(entries@),
            keys.deep_view() == favorite_keys(views).take(i as int),
        decreases entries.len() - i,
    {
        let key = recent_first_key_of(entries[i].added_at);
        let ghost before = keys.deep_view();
        proof {
            assert(key.deep_view() =~= key@);
            assert(views[i as int].added_at == entries@[i as int].added_at);
        }
        keys.push(key);
        i += 1;
        proof {
            assert(keys.deep_view() =~= before.push(key@));
            assert(keys.deep_view() =~= favorite_keys(views).take(i as int));
        }
    }
    proof {
        assert(favorite_keys(views).take(i as int) =~= favorite_keys(views));
    }
    let ghost items = entries@;
    let sorted = stable_sort_by_keys(entries, keys);
    proof {
        let p = choose|p: Seq<int>| stable_sort_witness(items, favorite_keys(views), sorted@, p);
        assert(stable_sort_witness(views, favorite_keys(views), favorites_view(sorted@), p));
    }
    sorted
}

/// Toggles `url` as a favorite at `now`: the first favorite for the URL is removed, and `false`
/// returned; a URL that is no favorite is added with time `now`, the list ordered most recently
/// added first (stably), and `true` returned.
pub fn toggle_favorite_at(entries: &mut Vec<FavoriteEntry>, url: &str, now: Timestamp) -> (added:
    bool)
    ensures
        favorite_toggled(favorites_view(old(entries)@), url@, now, favorites_view(final(entries)@), added),
{
    let ghost old_view = favorites_view(entries@);
    proof {
        lemma_favorite_index_bounds(old_view, url@);
    }
    let target = url.to_owned();
    let mut i: usize = 0;
    while i < entries.len()
        invariant
            i <= entries@.len(),
            entries@ == old(entries)@,
            old_view == favorites_view(entries@),
            target@ == url@,
            forall|k: int| 0 <= k < i ==> old_view[k].url != url@,
        decreases entries.len() - i,
    {
        if entries[i].url == target {
            proof {
                lemma_favorite_index_first(old_view, url@, i as int);
                assert(old_view[i as int].url == url@);
            }
            let _removed = entries.remove(i);
            proof {
                assert(favorites_view(entries@) =~= old_view.remove(i as int));
            }
            return false;
        }
        i += 1;
    }
    proof {
        lemma_favorite_index_none(old_view, url@);
    }
    entries.push(FavoriteEntry { url: target, added_at: now });
    proof {
        assert(favorites_view(entries@) =~= old_view.push(FavoriteEntryView { url: url@, added_at: now }));
    }
    let mut taken: Vec<FavoriteEntry> = Vec::new();
    core::mem::swap(entries, &mut taken);
    let sorted = sort_favorites(taken);
    *entries = sorted;
    true
}

/// Toggles `url` as a favorite now (see `toggle_favorite_at`); `true` where it was added.
pub fn toggle_favorite(entries: &mut Vec<FavoriteEntry>, url: &str) -> (added: bool)
    ensures
        exists|now: Timestamp|
            favorite_toggled(favorites_view(old(entries)@), url@, now, favorites_view(final(entries)@), added),
{
    let now = current_time();
    toggle_favorite_at(entries, url, now)
}

/// The entries that are not for `url`, in order.
pub open spec fn history_without(entries: Seq<HistoryEntryView>, url: Seq<char>) -> Seq<HistoryEntryView>
    decreases entries.len(),
{
    if entries.len() == 0 {
        entries
    } else if entries.last().url == url {
        history_without(entries.drop_last(), url)
    } else {
        history_without(entries.drop_last(), url).push(entries.last())
    }
}

/// Removes every history entry for `url`.
pub fn remove_history_url(entries: &mut Vec<HistoryEntry>, url: &str)
    ensures
        history_view(final(entries)@) == history_without(history_view(old(entries)@), url@),
{
    let ghost all = history_view(entries@);
    let mut rest: Vec<HistoryEntry> = Vec::new();
    core::mem::swap(entries, &mut rest);
    let target = url.to_owned();
    let ghost mut taken: int = 0;
    proof {
        assert(all.take(0) =~= Seq::<HistoryEntryView>::empty());
        assert(history_view(rest@) =~= all.skip(0));
    }
    while rest.len() > 0
        invariant
            0 <= taken <= all.len(),
            target@ == url@,
            history_view(rest@) == all.skip(taken),
            history_view(entries@) == history_without(all.take(taken), url@),
        decreases rest@.len(),
    {
        let ghost old_rest = rest@;
        proof {
            assert(history_view(old_rest).len() == old_rest.len());
            assert(history_view(old_rest)[0] == old_rest[0]@);
            assert(all.skip(taken)[0] == all[taken]);
        }
        let entry = rest.remove(0);
        proof {
            assert(rest@ =~= old_rest.subrange(1, old_rest.len() as int));
            assert(history_view(rest@) =~= history_view(old_rest).subrange(1, old_rest.len() as int));
            assert(history_view(rest@) =~= all.skip(taken + 1));
            assert(all.take(taken + 1).drop_last() =~= all.take(taken));
            assert(all.take(taken + 1).last() == all[taken]);
        }
        if entry.url != target {
            let ghost before = entries@;
            entries.push(entry);
            proof {
                assert(history_view(entries@) =~= history_view(before).push(all[taken]));
            }
        }
        proof {
            taken = taken + 1;
        }
    }
    proof {
        assert(all.take(taken) =~= all);
    }
}

/// The favorites that are not for `url`, in order.
pub open spec fn favorites_without(entries: Seq<FavoriteEntryView>, url: Seq<char>) -> Seq<FavoriteEntryView>
    decreases entries.len(),
{
    if entries.len() == 0 {
        entries
    } else if entries.last().url == url {
        favorites_without(entries.drop_last(), url)
    } else {
        favorites_without(entries.drop_last(), url).push(entries.last())
    }
}

/// Removes every favorite for `url`.
pub fn remove_favorite_url(entries: &mut Vec<FavoriteEntry>, url: &str)
    ensures
        favorites_view(final(entries)@) == favorites_without(favorites_view(old(entries)@), url@),
{
    let ghost all = favorites_view(entries@);
    let mut rest: Vec<FavoriteEntry> = Vec::new();
    core::mem::swap(entries, &mut rest);
    let target = url.to_owned();
    let ghost mut taken: int = 0;
    proof {
        assert(all.take(0) =~= Seq::<FavoriteEntryView>::empty());
        assert(favorites_view(rest@) =~= all.skip(0));
    }
    while rest.len() > 0
        invariant
            0 <= taken <= all.len(),
            target@ == url@,
            favorites_view(rest@) == all.skip(taken),
            favorites_view(entries@) == favorites_without(all.take(taken), url@),
        decreases rest@.len(),
    {
        let ghost old_rest = rest@;
        proof {
            assert(favorites_view(old_rest).len() == old_rest.len());
            assert(favorites_view(old_rest)[0] == old_rest[0]@);
            assert(all.skip(taken)[0] == all[taken]);
        }
        let entry = rest.remove(0);
        proof {
            assert(rest@ =~= old_rest.subrange(1, old_rest.len() as int));
            assert(favorites_view(rest@) =~= favorites_view(old_rest).subrange(1, old_rest.len() as int));
            assert(favorites_view(rest@) =~= all.skip(taken + 1));
            assert(all.take(taken + 1).drop_last() =~= all.take(taken));
            assert(all.take(taken + 1).last() == all[taken]);
        }
        if entry.url != target {
            let ghost before = entries@;
            entries.push(entry);
            proof {
                assert(favorites_view(entries@) =~= favorites_view(before).push(all[taken]));
            }
        }
        proof {
            taken = taken + 1;
        }
    }
    proof {
        assert(all.take(taken) =~= all);
    }
}

} // verus!
