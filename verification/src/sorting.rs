//! Stable sorting by integer-sequence keys compared lexicographically.
//!
//! Both the candidate list and the history list are sorted stably (`slice::sort_by_key` and
//! `slice::sort_by` are stable): items with equal keys keep their relative order. Each item's
//! sort key is written as a sequence of integers, so that tuples of integers and texts (compared
//! character by character) are all ordered by one lexicographic order.
use vstd::prelude::*;

verus! {

/// Lexicographic "strictly less" on integer sequences; a proper prefix comes first.
pub open spec fn lex_lt(a: Seq<i128>, b: Seq<i128>) -> bool
    decreases a.len(),
{
    if a.len() == 0 {
        b.len() > 0
    } else if b.len() == 0 {
        false
    } else if a[0] < b[0] {
        true
    } else if a[0] > b[0] {
        false
    } else {
        lex_lt(a.drop_first(), b.drop_first())
    }
}

/// Item `i` comes before item `j` in a stable sort: its key is smaller, or the keys are equal
/// and `i` came first.
pub open spec fn sorts_before(keys: Seq<Seq<i128>>, i: int, j: int) -> bool {
    lex_lt(keys[i], keys[j]) || (keys[i] == keys[j] && i < j)
}

/// `out` is `items` rearranged by the permutation `p` (`out[k]` is `items[p[k]]`) so that the
/// positions come in stable-sort order.
pub open spec fn stable_sort_witness<T>(
    items: Seq<T>,
    keys: Seq<Seq<i128>>,
    out: Seq<T>,
    p: Seq<int>,
) -> bool {
    &&& p.len() == items.len()
    &&& out.len() == items.len()
    &&& forall|k: int|
        0 <= k < p.len() ==> 0 <= #[trigger] p[k] < items.len() && out[k] == items[p[k]]
    &&& forall|k1: int, k2: int|
        0 <= k1 < k2 < p.len() ==> sorts_before(keys, #[trigger] p[k1], #[trigger] p[k2])
}

/// `out` is the stable sort of `items` by `keys` (`keys[i]` is the key of `items[i]`).
///
/// Since `sorts_before` is a strict total order on distinct positions, the permutation, and so
/// `out`, is unique.
pub open spec fn is_stable_sort<T>(items: Seq<T>, keys: Seq<Seq<i128>>, out: Seq<T>) -> bool {
    exists|p: Seq<int>| stable_sort_witness(items, keys, out, p)
}

pub proof fn lemma_lex_lt_irreflexive(a: Seq<i128>)
    ensures
        !lex_lt(a, a),
    decreases a.len(),
{
    if a.len() > 0 {
        lemma_lex_lt_irreflexive(a.drop_first());
    }
}

pub proof fn lemma_lex_lt_transitive(a: Seq<i128>, b: Seq<i128>, c: Seq<i128>)
    requires
        lex_lt(a, b),
        lex_lt(b, c),
    ensures
        lex_lt(a, c),
    decreases a.len(),
{
    if a.len() > 0 && b.len() > 0 && c.len() > 0 {
        if a[0] == b[0] && b[0] == c[0] {
            lemma_lex_lt_transitive(a.drop_first(), b.drop_first(), c.drop_first());
        }
    }
}

pub proof fn lemma_lex_lt_total(a: Seq<i128>, b: Seq<i128>)
    ensures
        a == b || lex_lt(a, b) || lex_lt(b, a),
    decreases a.len(),
{
    if a.len() > 0 && b.len() > 0 {
        lemma_lex_lt_total(a.drop_first(), b.drop_first());
        if a[0] == b[0] && a.drop_first() == b.drop_first() {
            assert(a =~= seq![a[0]] + a.drop_first());
            assert(b =~= seq![b[0]] + b.drop_first());
        }
    } else if a.len() == 0 && b.len() == 0 {
        assert(a =~= b);
    }
}

/// Position `i` of the input is among the positions `p` takes items from.
pub open spec fn position_taken(p: Seq<int>, i: int) -> bool {
    exists|k: int| 0 <= k < p.len() && p[k] == i
}

/// The positions of a stable sort never repeat.
pub proof fn lemma_witness_distinct<T>(items: Seq<T>, keys: Seq<Seq<i128>>, out: Seq<T>, p: Seq<int>)
    requires
        stable_sort_witness(items, keys, out, p),
    ensures
        forall|k1: int, k2: int| 0 <= k1 < p.len() && 0 <= k2 < p.len() && k1 != k2 ==> p[k1] != p[k2],
{
    assert forall|k1: int, k2: int| 0 <= k1 < p.len() && 0 <= k2 < p.len() && k1 != k2 implies p[k1] != p[k2] by {
        if p[k1] == p[k2] {
            lemma_lex_lt_irreflexive(keys[p[k1]]);
            if k1 < k2 {
                assert(sorts_before(keys, p[k1], p[k2]));
            } else {
                assert(sorts_before(keys, p[k2], p[k1]));
            }
        }
    }
}

/// Every position of the input appears in a stable sort's permutation.
pub proof fn lemma_witness_onto<T>(items: Seq<T>, keys: Seq<Seq<i128>>, out: Seq<T>, p: Seq<int>)
    requires
        stable_sort_witness(items, keys, out, p),
    ensures
        forall|i: int| 0 <= i < items.len() ==> #[trigger] position_taken(p, i),
{
    lemma_witness_distinct(items, keys, out, p);
    assert(p.no_duplicates());
    p.unique_seq_to_set();
    let range = vstd::set_lib::set_int_range(0, items.len() as int);
    vstd::set_lib::lemma_int_range(0, items.len() as int);
    assert(p.to_set().subset_of(range)) by {
        assert forall|x: int| p.to_set().contains(x) implies range.contains(x) by {
            let k = choose|k: int| 0 <= k < p.len() && p[k] == x;
        }
    }
    vstd::set_lib::lemma_len_subset(p.to_set(), range);
    vstd::set_lib::lemma_subset_equality(p.to_set(), range);
    assert forall|i: int| 0 <= i < items.len() implies #[trigger] position_taken(p, i) by {
        assert(range.contains(i));
        assert(p.to_set().contains(i));
    }
}

/// Law: a stable sort rearranges its input. The output is as long as the input, every item of
/// the output is an item of the input, and every item of the input appears in the output at a
/// position of its own.
pub proof fn lemma_stable_sort_is_permutation<T>(items: Seq<T>, keys: Seq<Seq<i128>>, out: Seq<T>)
    requires
        is_stable_sort(items, keys, out),
    ensures
        out.len() == items.len(),
        forall|k: int| 0 <= k < out.len() ==> items.contains(#[trigger] out[k]),
        exists|p: Seq<int>|
            p.len() == items.len() && (forall|k: int| 0 <= k < p.len() ==> 0 <= #[trigger] p[k] < items.len() && out[k] == items[p[k]])
                && (forall|k1: int, k2: int| 0 <= k1 < k2 < p.len() ==> #[trigger] p[k1] != #[trigger] p[k2])
                && (forall|i: int| 0 <= i < items.len() ==> #[trigger] position_taken(p, i)),
{
    let p = choose|p: Seq<int>| stable_sort_witness(items, keys, out, p);
    lemma_witness_distinct(items, keys, out, p);
    lemma_witness_onto(items, keys, out, p);
    assert forall|k: int| 0 <= k < out.len() implies items.contains(#[trigger] out[k]) by {
        assert(out[k] == items[p[k]]);
    }
}

/// Law: the output of a stable sort is in key order: an item never has a smaller key than an
/// item before it.
pub proof fn lemma_stable_sort_ordered<T>(items: Seq<T>, keys: Seq<Seq<i128>>, out: Seq<T>)
    requires
        is_stable_sort(items, keys, out),
    ensures
        exists|p: Seq<int>|
            p.len() == out.len() && forall|k1: int, k2: int|
                0 <= k1 < k2 < p.len() ==> !lex_lt(keys[#[trigger] p[k2]], keys[#[trigger] p[k1]]),
{
    let p = choose|p: Seq<int>| stable_sort_witness(items, keys, out, p);
    assert forall|k1: int, k2: int| 0 <= k1 < k2 < p.len() implies !lex_lt(keys[#[trigger] p[k2]], keys[#[trigger] p[k1]]) by {
        assert(sorts_before(keys, p[k1], p[k2]));
        if lex_lt(keys[p[k2]], keys[p[k1]]) {
            if lex_lt(keys[p[k1]], keys[p[k2]]) {
                lemma_lex_lt_transitive(keys[p[k1]], keys[p[k2]], keys[p[k1]]);
                lemma_lex_lt_irreflexive(keys[p[k1]]);
            } else {
                lemma_lex_lt_irreflexive(keys[p[k1]]);
            }
        }
    }
}

/// Whether `a` comes strictly before `b` lexicographically.
pub fn lex_less(a: &Vec<i128>, b: &Vec<i128>) -> (r: bool)
    ensures
        r == lex_lt(a@, b@),
{
    let mut i: usize = 0;
    proof {
        assert(a@.skip(0) =~= a@);
        assert(b@.skip(0) =~= b@);
    }
    while i < a.len() && i < b.len()
        invariant
            i <= a@.len(),
            i <= b@.len(),
            lex_lt(a@, b@) == lex_lt(a@.skip(i as int), b@.skip(i as int)),
        decreases a.len() - i,
    {
        if a[i] < b[i] {
            return true;
        }
        if a[i] > b[i] {
            return false;
        }
        proof {
            assert(a@.skip(i as int).drop_first() =~= a@.skip(i + 1));
            assert(b@.skip(i as int).drop_first() =~= b@.skip(i + 1));
        }
        i += 1;
    }
    i == a.len() && i < b.len()
}

/// The items of `items` in stable order of `keys`.
pub fn stable_sort_by_keys<T>(items: Vec<T>, keys: Vec<Vec<i128>>) -> (out: Vec<T>)
    requires
        items@.len() == keys@.len(),
    ensures
        is_stable_sort(items@, keys.deep_view(), out@),
{
    let ghost all_items = items@;
    let ghost all_keys = keys.deep_view();
    let ghost n = items@.len() as int;
    let mut rest_items = items;
    let mut rest_keys = keys;
    let ghost mut rest_idx: Seq<int> = Seq::new(n as nat, |i: int| i);
    let mut out: Vec<T> = Vec::new();
    let ghost mut p: Seq<int> = Seq::empty();
    while rest_items.len() > 0
        invariant
            rest_items@.len() == rest_keys@.len(),
            rest_items@.len() == rest_idx.len(),
            out@.len() == p.len(),
            out@.len() + rest_items@.len() == n,
            n == all_items.len(),
            all_keys.len() == n,
            forall|t: int|
                0 <= t < rest_idx.len() ==> 0 <= #[trigger] rest_idx[t] < n && rest_items@[t]
                    == all_items[rest_idx[t]] && rest_keys@[t]@ == all_keys[rest_idx[t]],
            forall|t1: int, t2: int|
                0 <= t1 < t2 < rest_idx.len() ==> #[trigger] rest_idx[t1] < #[trigger] rest_idx[t2],
            forall|k: int| 0 <= k < p.len() ==> 0 <= #[trigger] p[k] < n && out@[k] == all_items[p[k]],
            forall|k1: int, k2: int|
                0 <= k1 < k2 < p.len() ==> sorts_before(all_keys, #[trigger] p[k1], #[trigger] p[k2]),
            forall|k: int, t: int|
                0 <= k < p.len() && 0 <= t < rest_idx.len() ==> sorts_before(
                    all_keys,
                    #[trigger] p[k],
                    #[trigger] rest_idx[t],
                ),
        decreases rest_items@.len(),
    {
        let len = rest_keys.len();
        let mut best: usize = 0;
        let mut j: usize = 1;
        while j < len
            invariant
                len == rest_keys@.len(),
                len == rest_idx.len(),
                len > 0,
                0 <= best < j <= len,
                forall|t: int|
                    0 <= t < rest_idx.len() ==> #[trigger] rest_keys@[t]@ == all_keys[rest_idx[t]],
                forall|t: int| 0 <= t < best ==> lex_lt(rest_keys@[best as int]@, #[trigger] rest_keys@[t]@),
                forall|t: int| best < t < j ==> !lex_lt(#[trigger] rest_keys@[t]@, rest_keys@[best as int]@),
            decreases len - j,
        {
            if lex_less(&rest_keys[j], &rest_keys[best]) {
                proof {
                    let kj = rest_keys@[j as int]@;
                    let kb = rest_keys@[best as int]@;
                    assert forall|t: int| 0 <= t < j implies lex_lt(kj, #[trigger] rest_keys@[t]@) by {
                        let kt = rest_keys@[t]@;
                        if t < best {
                            lemma_lex_lt_transitive(kj, kb, kt);
                        } else if t == best {
                        } else {
                            lemma_lex_lt_total(kb, kt);
                            if lex_lt(kb, kt) {
                                lemma_lex_lt_transitive(kj, kb, kt);
                            }
                        }
                    }
                }
                best = j;
            }
            j += 1;
        }
        proof {
            let b = best as int;
            assert forall|t: int| 0 <= t < rest_idx.len() && t != b implies sorts_before(
                all_keys,
                rest_idx[b],
                #[trigger] rest_idx[t],
            ) by {
                let kb = rest_keys@[b]@;
                let kt = rest_keys@[t]@;
                if t > b {
                    lemma_lex_lt_total(kb, kt);
                }
            }
        }
        let ghost chosen = rest_idx[best as int];
        let item = rest_items.remove(best);
        let _key = rest_keys.remove(best);
        proof {
            rest_idx = rest_idx.remove(best as int);
            p = p.push(chosen);
        }
        out.push(item);
        proof {
            assert forall|k1: int, k2: int| 0 <= k1 < k2 < p.len() implies sorts_before(
                all_keys,
                #[trigger] p[k1],
                #[trigger] p[k2],
            ) by {
                if k2 == p.len() - 1 {
                    assert(p[k2] == chosen);
                }
            }
        }
    }
    proof {
        assert(stable_sort_witness(all_items, all_keys, out@, p));
    }
    out
}

} // verus!
