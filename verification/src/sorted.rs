//! Lists of (key, value) pairs in key order: the stable merge sort that puts
//! a dictionary's entries in their place on the wire, and the insertion that
//! keeps a dictionary's entries ordered and its keys unique.

use crate::order::{
    bytes_eq, bytes_le, lemma_lex_le_antisym, lemma_lex_le_refl, lemma_lex_le_total,
    lemma_lex_le_trans, lex_le, lex_lt,
};
use vstd::prelude::*;

verus! {

/// The keys never go down from one entry to the next.
pub open spec fn keys_sorted<V>(s: Seq<(Seq<u8>, V)>) -> bool {
    forall|i: int, j: int| 0 <= i < j < s.len() ==> lex_le(#[trigger] s[i].0, #[trigger] s[j].0)
}

/// The keys go up from each entry to the next, so no key occurs twice.
pub open spec fn keys_increasing<V>(s: Seq<(Seq<u8>, V)>) -> bool {
    forall|i: int, j: int| 0 <= i < j < s.len() ==> lex_lt(#[trigger] s[i].0, #[trigger] s[j].0)
}

/// No key occurs twice.
pub open spec fn keys_distinct<V>(s: Seq<(Seq<u8>, V)>) -> bool {
    forall|i: int, j: int| 0 <= i < j < s.len() ==> #[trigger] s[i].0 != #[trigger] s[j].0
}

/// Two lists made into one: each time the entry with the lower key at the
/// front of either list comes next, that of `a` where the two keys are the same.
pub open spec fn merge_entries<V>(a: Seq<(Seq<u8>, V)>, b: Seq<(Seq<u8>, V)>) -> Seq<
    (Seq<u8>, V),
>
    decreases a.len() + b.len(),
{
    if a.len() == 0 {
        b
    } else if b.len() == 0 {
        a
    } else if lex_le(a.first().0, b.first().0) {
        seq![a.first()] + merge_entries(a.drop_first(), b)
    } else {
        seq![b.first()] + merge_entries(a, b.drop_first())
    }
}

/// The entries of `s` in key order, by merge sort: the two halves are sorted
/// and merged. Entries with the same key keep the order they had in `s`.
pub open spec fn sort_entries<V>(s: Seq<(Seq<u8>, V)>) -> Seq<(Seq<u8>, V)>
    decreases s.len(),
{
    if s.len() <= 1 {
        s
    } else {
        merge_entries(
            sort_entries(s.take(s.len() as int / 2)),
            sort_entries(s.skip(s.len() as int / 2)),
        )
    }
}

/// Of neighbours with the same key only the last stays.
pub open spec fn dedup_last<V>(s: Seq<(Seq<u8>, V)>) -> Seq<(Seq<u8>, V)>
    decreases s.len(),
{
    if s.len() == 0 {
        s
    } else {
        let front = dedup_last(s.drop_last());
        if front.len() > 0 && front.last().0 == s.last().0 {
            front.drop_last().push(s.last())
        } else {
            front.push(s.last())
        }
    }
}

/// The dictionary that entries make, in whatever order they come: its
/// entries stand in rising key order, and of the entries with one key the one
/// that came last stays.
pub open spec fn dict_of<V>(entries: Seq<(Seq<u8>, V)>) -> Seq<(Seq<u8>, V)> {
    dedup_last(sort_entries(entries))
}

/// The entries with their values changed by `f`, keys and order as they are.
pub open spec fn map_payload<V, W>(s: Seq<(Seq<u8>, V)>, f: spec_fn(V) -> W) -> Seq<(Seq<u8>, W)> {
    Seq::new(s.len(), |i: int| (s[i].0, f(s[i].1)))
}

/// `(k, v)` put into `s` in key order, in place of the entry with key `k` if
/// there is one.
pub open spec fn assoc_insert<V>(s: Seq<(Seq<u8>, V)>, k: Seq<u8>, v: V) -> Seq<(Seq<u8>, V)>
    decreases s.len(),
{
    if s.len() == 0 {
        seq![(k, v)]
    } else if s.last().0 == k {
        s.drop_last().push((k, v))
    } else if lex_le(s.last().0, k) {
        s.push((k, v))
    } else {
        assoc_insert(s.drop_last(), k, v).push(s.last())
    }
}

/// A part of a sorted list is sorted.
pub proof fn lemma_keys_sorted_part<V>(s: Seq<(Seq<u8>, V)>, from: int, to: int)
    requires
        keys_sorted(s),
        0 <= from <= to <= s.len(),
    ensures
        keys_sorted(s.subrange(from, to)),
{
    let part = s.subrange(from, to);
    assert forall|i: int, j: int| 0 <= i < j < part.len() implies lex_le(
        #[trigger] part[i].0,
        #[trigger] part[j].0,
    ) by {
        assert(part[i] == s[from + i] && part[j] == s[from + j]);
    }
}

/// Merging neither loses an entry nor adds one.
pub proof fn lemma_merge_entries<V>(a: Seq<(Seq<u8>, V)>, b: Seq<(Seq<u8>, V)>)
    ensures
        merge_entries(a, b).len() == a.len() + b.len(),
        merge_entries(a, b).to_multiset() == a.to_multiset().add(b.to_multiset()),
        forall|i: int|
            0 <= i < merge_entries(a, b).len() ==> a.contains(#[trigger] merge_entries(a, b)[i])
                || b.contains(merge_entries(a, b)[i]),
    decreases a.len() + b.len(),
{
    broadcast use vstd::seq_lib::lemma_multiset_commutative;

    let m = merge_entries(a, b);
    if a.len() == 0 {
        assert(a.to_multiset() =~= vstd::multiset::Multiset::empty()) by {
            a.to_multiset_ensures();
        }
        assert(m.to_multiset() =~= a.to_multiset().add(b.to_multiset()));
        assert forall|i: int| 0 <= i < m.len() implies b.contains(#[trigger] m[i]) by {
            assert(b[i] == m[i]);
        }
    } else if b.len() == 0 {
        assert(b.to_multiset() =~= vstd::multiset::Multiset::empty()) by {
            b.to_multiset_ensures();
        }
        assert(m.to_multiset() =~= a.to_multiset().add(b.to_multiset()));
        assert forall|i: int| 0 <= i < m.len() implies a.contains(#[trigger] m[i]) by {
            assert(a[i] == m[i]);
        }
    } else if lex_le(a.first().0, b.first().0) {
        let rest = merge_entries(a.drop_first(), b);
        lemma_merge_entries(a.drop_first(), b);
        assert(a =~= seq![a.first()] + a.drop_first());
        assert(m.to_multiset() =~= a.to_multiset().add(b.to_multiset())) by {
            assert((seq![a.first()] + a.drop_first()).to_multiset() =~= seq![
                a.first(),
            ].to_multiset().add(a.drop_first().to_multiset()));
            assert((seq![a.first()] + rest).to_multiset() =~= seq![a.first()].to_multiset().add(
                rest.to_multiset(),
            ));
        }
        assert forall|i: int| 0 <= i < m.len() implies a.contains(#[trigger] m[i]) || b.contains(
            m[i],
        ) by {
            if i == 0 {
                assert(a[0] == m[0]);
            } else {
                assert(m[i] == rest[i - 1]);
                if a.drop_first().contains(rest[i - 1]) {
                    let j = choose|j: int|
                        0 <= j < a.drop_first().len() && a.drop_first()[j] == rest[i - 1];
                    assert(a[j + 1] == m[i]);
                }
            }
        }
    } else {
        let rest = merge_entries(a, b.drop_first());
        lemma_merge_entries(a, b.drop_first());
        assert(b =~= seq![b.first()] + b.drop_first());
        assert(m.to_multiset() =~= a.to_multiset().add(b.to_multiset())) by {
            assert((seq![b.first()] + b.drop_first()).to_multiset() =~= seq![
                b.first(),
            ].to_multiset().add(b.drop_first().to_multiset()));
            assert((seq![b.first()] + rest).to_multiset() =~= seq![b.first()].to_multiset().add(
                rest.to_multiset(),
            ));
        }
        assert forall|i: int| 0 <= i < m.len() implies a.contains(#[trigger] m[i]) || b.contains(
            m[i],
        ) by {
            if i == 0 {
                assert(b[0] == m[0]);
            } else {
                assert(m[i] == rest[i - 1]);
                if b.drop_first().contains(rest[i - 1]) {
                    let j = choose|j: int|
                        0 <= j < b.drop_first().len() && b.drop_first()[j] == rest[i - 1];
                    assert(b[j + 1] == m[i]);
                }
            }
        }
    }
}

/// Two sorted lists merge into a sorted list.
pub proof fn lemma_merge_entries_sorted<V>(a: Seq<(Seq<u8>, V)>, b: Seq<(Seq<u8>, V)>)
    requires
        keys_sorted(a),
        keys_sorted(b),
    ensures
        keys_sorted(merge_entries(a, b)),
    decreases a.len() + b.len(),
{
    let m = merge_entries(a, b);
    if a.len() > 0 && b.len() > 0 {
        let a_first = lex_le(a.first().0, b.first().0);
        let head = if a_first {
            a.first()
        } else {
            b.first()
        };
        let a2 = if a_first {
            a.drop_first()
        } else {
            a
        };
        let b2 = if a_first {
            b
        } else {
            b.drop_first()
        };
        let rest = merge_entries(a2, b2);
        lemma_keys_sorted_part(a, 1, a.len() as int);
        lemma_keys_sorted_part(b, 1, b.len() as int);
        lemma_merge_entries_sorted(a2, b2);
        lemma_merge_entries(a2, b2);
        lemma_lex_le_total(a.first().0, b.first().0);
        lemma_lex_le_refl(a.first().0);
        lemma_lex_le_refl(b.first().0);
        assert forall|i: int| 0 <= i < rest.len() implies lex_le(head.0, (#[trigger] rest[i]).0) by {
            if a2.contains(rest[i]) {
                let j = choose|j: int| 0 <= j < a2.len() && a2[j] == rest[i];
                if a_first {
                    assert(a2[j] == a[j + 1]);
                    assert(lex_le(a[0].0, a[j + 1].0));
                } else {
                    assert(a2[j] == a[j]);
                    if j > 0 {
                        assert(lex_le(a[0].0, a[j].0));
                    }
                    lemma_lex_le_trans(head.0, a[0].0, a[j].0);
                }
            } else {
                let j = choose|j: int| 0 <= j < b2.len() && b2[j] == rest[i];
                if a_first {
                    assert(b2[j] == b[j]);
                    if j > 0 {
                        assert(lex_le(b[0].0, b[j].0));
                    }
                    lemma_lex_le_trans(head.0, b[0].0, b[j].0);
                } else {
                    assert(b2[j] == b[j + 1]);
                    assert(lex_le(b[0].0, b[j + 1].0));
                }
            }
        }
        assert(m == seq![head] + rest);
        assert forall|i: int, j: int| 0 <= i < j < m.len() implies lex_le(
            #[trigger] m[i].0,
            #[trigger] m[j].0,
        ) by {
            assert(m[j] == rest[j - 1]);
            if i > 0 {
                assert(m[i] == rest[i - 1]);
            }
        }
    }
}

/// Two lists that are sorted when put end to end merge into just that.
pub proof fn lemma_merge_entries_in_order<V>(a: Seq<(Seq<u8>, V)>, b: Seq<(Seq<u8>, V)>)
    requires
        keys_sorted(a + b),
    ensures
        merge_entries(a, b) == a + b,
    decreases a.len(),
{
    if a.len() == 0 {
        assert(a + b =~= b);
    } else if b.len() == 0 {
        assert(a + b =~= a);
    } else {
        let whole = a + b;
        assert(whole[0] == a[0] && whole[a.len() as int] == b[0]);
        assert(lex_le(whole[0].0, whole[a.len() as int].0));
        assert(a.drop_first() + b =~= whole.subrange(1, whole.len() as int));
        lemma_keys_sorted_part(whole, 1, whole.len() as int);
        lemma_merge_entries_in_order(a.drop_first(), b);
        assert(seq![a.first()] + (a.drop_first() + b) =~= a + b);
    }
}

/// The sorted list is in key order and holds the entries of the list it was
/// made from, each as often as there: nothing is lost, nothing added.
pub proof fn lemma_sort_entries<V>(s: Seq<(Seq<u8>, V)>)
    ensures
        keys_sorted(sort_entries(s)),
        sort_entries(s).len() == s.len(),
        sort_entries(s).to_multiset() == s.to_multiset(),
    decreases s.len(),
{
    if s.len() > 1 {
        let h = s.len() as int / 2;
        let left = s.take(h);
        let right = s.skip(h);
        lemma_sort_entries(left);
        lemma_sort_entries(right);
        lemma_merge_entries(sort_entries(left), sort_entries(right));
        lemma_merge_entries_sorted(sort_entries(left), sort_entries(right));
        assert(left + right =~= s);
        vstd::seq_lib::lemma_multiset_commutative(left, right);
    }
}

/// A list that is in key order already is its own sorted list.
pub proof fn lemma_sort_entries_of_sorted<V>(s: Seq<(Seq<u8>, V)>)
    requires
        keys_sorted(s),
    ensures
        sort_entries(s) == s,
    decreases s.len(),
{
    if s.len() > 1 {
        let h = s.len() as int / 2;
        let left = s.take(h);
        let right = s.skip(h);
        lemma_keys_sorted_part(s, 0, h);
        lemma_keys_sorted_part(s, h, s.len() as int);
        lemma_sort_entries_of_sorted(left);
        lemma_sort_entries_of_sorted(right);
        assert(left + right =~= s);
        lemma_merge_entries_in_order(left, right);
    }
}

/// Merging lists and then changing the values is changing the values and
/// then merging: the order goes by the keys alone.
pub proof fn lemma_merge_map_payload<V, W>(
    a: Seq<(Seq<u8>, V)>,
    b: Seq<(Seq<u8>, V)>,
    f: spec_fn(V) -> W,
)
    ensures
        merge_entries(map_payload(a, f), map_payload(b, f)) == map_payload(merge_entries(a, b), f),
    decreases a.len() + b.len(),
{
    let ma = map_payload(a, f);
    let mb = map_payload(b, f);
    if a.len() == 0 {
    } else if b.len() == 0 {
    } else if lex_le(a.first().0, b.first().0) {
        lemma_merge_map_payload(a.drop_first(), b, f);
        assert(ma.drop_first() =~= map_payload(a.drop_first(), f));
        assert(map_payload(seq![a.first()] + merge_entries(a.drop_first(), b), f) =~= seq![
            ma.first(),
        ] + map_payload(merge_entries(a.drop_first(), b), f));
    } else {
        lemma_merge_map_payload(a, b.drop_first(), f);
        assert(mb.drop_first() =~= map_payload(b.drop_first(), f));
        assert(map_payload(seq![b.first()] + merge_entries(a, b.drop_first()), f) =~= seq![
            mb.first(),
        ] + map_payload(merge_entries(a, b.drop_first()), f));
    }
}

/// Sorting entries and then changing the values is changing the values and
/// then sorting.
pub proof fn lemma_sort_map_payload<V, W>(s: Seq<(Seq<u8>, V)>, f: spec_fn(V) -> W)
    ensures
        sort_entries(map_payload(s, f)) == map_payload(sort_entries(s), f),
    decreases s.len(),
{
    if s.len() > 1 {
        let h = s.len() as int / 2;
        lemma_sort_map_payload(s.take(h), f);
        lemma_sort_map_payload(s.skip(h), f);
        assert(map_payload(s, f).take(h) =~= map_payload(s.take(h), f));
        assert(map_payload(s, f).skip(h) =~= map_payload(s.skip(h), f));
        lemma_merge_map_payload(sort_entries(s.take(h)), sort_entries(s.skip(h)), f);
    }
}

/// Two lists in rising key order that hold the same entries are the same list.
pub proof fn lemma_increasing_unique<V>(a: Seq<(Seq<u8>, V)>, b: Seq<(Seq<u8>, V)>)
    requires
        keys_increasing(a),
        keys_increasing(b),
        forall|e: (Seq<u8>, V)| a.contains(e) <==> b.contains(e),
    ensures
        a == b,
    decreases a.len(),
{
    if a.len() == 0 {
        if b.len() > 0 {
            assert(b.contains(b[0]));
        }
        assert(a =~= b);
    } else {
        let top = a.last();
        assert(a.contains(top));
        assert(b.contains(top));
        let at = choose|at: int| 0 <= at < b.len() && b[at] == top;
        if at < b.len() - 1 {
            let other = b.last();
            assert(b.contains(other));
            assert(a.contains(other));
            let back = choose|i: int| 0 <= i < a.len() && a[i] == other;
            assert(lex_lt(b[at].0, b[b.len() - 1].0));
            if back < a.len() - 1 {
                assert(lex_lt(a[back].0, a[a.len() - 1].0));
                lemma_lex_le_antisym(top.0, other.0);
            }
        }
        let a2 = a.drop_last();
        let b2 = b.drop_last();
        assert forall|e: (Seq<u8>, V)| a2.contains(e) <==> b2.contains(e) by {
            if a2.contains(e) {
                let i = choose|i: int| 0 <= i < a2.len() && a2[i] == e;
                assert(a[i] == e);
                assert(a.contains(e));
                assert(lex_lt(a[i].0, a[a.len() - 1].0));
                let j = choose|j: int| 0 <= j < b.len() && b[j] == e;
                assert(b2[j] == e);
            }
            if b2.contains(e) {
                let j = choose|j: int| 0 <= j < b2.len() && b2[j] == e;
                assert(b[j] == e);
                assert(b.contains(e));
                assert(lex_lt(b[j].0, b[b.len() - 1].0));
                let i = choose|i: int| 0 <= i < a.len() && a[i] == e;
                assert(a2[i] == e);
            }
        }
        assert(keys_increasing(a2)) by {
            assert forall|i: int, j: int| 0 <= i < j < a2.len() implies lex_lt(
                #[trigger] a2[i].0,
                #[trigger] a2[j].0,
            ) by {
                assert(a2[i] == a[i] && a2[j] == a[j]);
            }
        }
        assert(keys_increasing(b2)) by {
            assert forall|i: int, j: int| 0 <= i < j < b2.len() implies lex_lt(
                #[trigger] b2[i].0,
                #[trigger] b2[j].0,
            ) by {
                assert(b2[i] == b[i] && b2[j] == b[j]);
            }
        }
        lemma_increasing_unique(a2, b2);
        assert(a =~= a2.push(top));
        assert(b =~= b2.push(top));
    }
}

/// Dropping all but the last of neighbours with one key and then changing
/// the values is changing the values and then dropping.
pub proof fn lemma_dedup_map_payload<V, W>(s: Seq<(Seq<u8>, V)>, f: spec_fn(V) -> W)
    ensures
        dedup_last(map_payload(s, f)) == map_payload(dedup_last(s), f),
    decreases s.len(),
{
    let ms = map_payload(s, f);
    if s.len() == 0 {
        assert(ms =~= map_payload(dedup_last(s), f));
    } else {
        lemma_dedup_map_payload(s.drop_last(), f);
        assert(ms.drop_last() =~= map_payload(s.drop_last(), f));
        let front = dedup_last(s.drop_last());
        let mfront = map_payload(front, f);
        if front.len() > 0 && front.last().0 == s.last().0 {
            assert(mfront.drop_last().push(ms.last()) =~= map_payload(
                front.drop_last().push(s.last()),
                f,
            ));
        } else {
            assert(mfront.push(ms.last()) =~= map_payload(front.push(s.last()), f));
        }
    }
}

/// Making a dictionary and then changing the values is changing the values
/// and then making the dictionary.
pub proof fn lemma_dict_of_map_payload<V, W>(s: Seq<(Seq<u8>, V)>, f: spec_fn(V) -> W)
    ensures
        dict_of(map_payload(s, f)) == map_payload(dict_of(s), f),
{
    lemma_sort_map_payload(s, f);
    lemma_dedup_map_payload(sort_entries(s), f);
}

/// Sorting keeps the entries and adds none, and where no key occurred twice
/// none does afterwards.
pub proof fn lemma_sort_entries_distinct<V>(s: Seq<(Seq<u8>, V)>)
    requires
        keys_distinct(s),
    ensures
        keys_distinct(sort_entries(s)),
        keys_increasing(sort_entries(s)),
        forall|e: (Seq<u8>, V)|
            #![trigger sort_entries(s).contains(e)]
            #![trigger s.contains(e)]
            sort_entries(s).contains(e) <==> s.contains(e),
{
    broadcast use vstd::seq_lib::group_to_multiset_ensures;

    let r = sort_entries(s);
    lemma_sort_entries(s);
    assert forall|e: (Seq<u8>, V)| r.contains(e) <==> s.contains(e) by {
        assert(r.contains(e) <==> r.to_multiset().count(e) > 0);
        assert(s.contains(e) <==> s.to_multiset().count(e) > 0);
    }
    assert(s.no_duplicates()) by {
        assert forall|i: int, j: int| 0 <= i < s.len() && 0 <= j < s.len() && i != j implies s[i]
            != s[j] by {
            if i < j {
                assert(s[i].0 != s[j].0);
            } else {
                assert(s[j].0 != s[i].0);
            }
        }
    }
    s.lemma_multiset_has_no_duplicates();
    r.lemma_multiset_has_no_duplicates_conv();
    assert forall|i: int, j: int| 0 <= i < j < r.len() implies #[trigger] r[i].0
        != #[trigger] r[j].0 by {
        assert(r[i] != r[j]);
        assert(r.contains(r[i]) && r.contains(r[j]));
        assert(s.contains(r[i]) && s.contains(r[j]));
        let p = choose|p: int| 0 <= p < s.len() && s[p] == r[i];
        let q = choose|q: int| 0 <= q < s.len() && s[q] == r[j];
        if p < q {
            assert(s[p].0 != s[q].0);
        } else {
            assert(s[q].0 != s[p].0);
        }
    }
    assert forall|i: int, j: int| 0 <= i < j < r.len() implies lex_lt(
        #[trigger] r[i].0,
        #[trigger] r[j].0,
    ) by {
        assert(lex_le(r[i].0, r[j].0));
        assert(r[i].0 != r[j].0);
    }
}

/// **Canonical order.** Two lists that hold the same entries, in whatever
/// order, with no key twice, sort to the same list.
pub proof fn lemma_sort_entries_canonical<V>(a: Seq<(Seq<u8>, V)>, b: Seq<(Seq<u8>, V)>)
    requires
        keys_distinct(a),
        keys_distinct(b),
        forall|e: (Seq<u8>, V)| a.contains(e) <==> b.contains(e),
    ensures
        sort_entries(a) == sort_entries(b),
{
    lemma_sort_entries_distinct(a);
    lemma_sort_entries_distinct(b);
    assert forall|e: (Seq<u8>, V)| sort_entries(a).contains(e) <==> sort_entries(b).contains(
        e,
    ) by {
        assert(sort_entries(a).contains(e) <==> a.contains(e));
        assert(sort_entries(b).contains(e) <==> b.contains(e));
    }
    lemma_increasing_unique(sort_entries(a), sort_entries(b));
}

/// In a sorted list `dedup_last` leaves rising keys, takes its entries from
/// the list, and ends with the list's last entry.
pub proof fn lemma_dedup_last<V>(s: Seq<(Seq<u8>, V)>)
    requires
        keys_sorted(s),
    ensures
        keys_increasing(dedup_last(s)),
        dedup_last(s).len() <= s.len(),
        s.len() > 0 ==> dedup_last(s).len() > 0 && dedup_last(s).last() == s.last(),
        forall|i: int| 0 <= i < dedup_last(s).len() ==> s.contains(#[trigger] dedup_last(s)[i]),
    decreases s.len(),
{
    if s.len() > 0 {
        let rest = s.drop_last();
        let top = s.last();
        lemma_keys_sorted_part(s, 0, s.len() - 1);
        lemma_dedup_last(rest);
        let front = dedup_last(rest);
        let kept = if front.len() > 0 && front.last().0 == top.0 {
            front.drop_last()
        } else {
            front
        };
        let r = dedup_last(s);
        assert(r == kept.push(top));
        assert forall|i: int| 0 <= i < kept.len() implies lex_lt((#[trigger] kept[i]).0, top.0) by {
            assert(kept[i] == front[i]);
            assert(rest.contains(front[i]));
            let j = choose|j: int| 0 <= j < rest.len() && rest[j] == front[i];
            assert(s[j] == rest[j]);
            assert(lex_le(s[j].0, s[s.len() - 1].0));
            if front[i].0 == top.0 {
                if i < front.len() - 1 {
                    assert(lex_lt(front[i].0, front[front.len() - 1].0));
                    let last_j = choose|j: int|
                        0 <= j < rest.len() && rest[j] == front[front.len() - 1];
                    assert(rest.contains(front[front.len() - 1]));
                    assert(s[last_j] == rest[last_j]);
                    assert(lex_le(s[last_j].0, s[s.len() - 1].0));
                    lemma_lex_le_antisym(front[front.len() - 1].0, top.0);
                }
            }
        }
        assert forall|i: int, j: int| 0 <= i < j < r.len() implies lex_lt(
            #[trigger] r[i].0,
            #[trigger] r[j].0,
        ) by {
            if j < r.len() - 1 {
                assert(r[i] == front[i] && r[j] == front[j]);
            } else {
                assert(r[i] == kept[i]);
            }
        }
        assert forall|i: int| 0 <= i < r.len() implies s.contains(#[trigger] r[i]) by {
            if i < r.len() - 1 {
                assert(r[i] == front[i]);
                assert(rest.contains(front[i]));
                let j = choose|j: int| 0 <= j < rest.len() && rest[j] == front[i];
                assert(s[j] == r[i]);
            } else {
                assert(s[s.len() - 1] == r[i]);
            }
        }
    }
}

/// A list with rising keys has no neighbours with the same key: `dedup_last`
/// leaves it as it is.
pub proof fn lemma_dedup_last_of_increasing<V>(s: Seq<(Seq<u8>, V)>)
    requires
        keys_increasing(s),
    ensures
        dedup_last(s) == s,
    decreases s.len(),
{
    if s.len() > 0 {
        let rest = s.drop_last();
        assert(keys_increasing(rest)) by {
            assert forall|i: int, j: int| 0 <= i < j < rest.len() implies lex_lt(
                #[trigger] rest[i].0,
                #[trigger] rest[j].0,
            ) by {
                assert(rest[i] == s[i] && rest[j] == s[j]);
            }
        }
        lemma_dedup_last_of_increasing(rest);
        if rest.len() > 0 {
            assert(rest.last() == s[s.len() - 2]);
            assert(lex_lt(s[s.len() - 2].0, s[s.len() - 1].0));
        }
        assert(rest.push(s.last()) =~= s);
    }
}

/// **A dictionary from entries.** Whatever the entries and their order, the
/// dictionary they make has rising keys and holds none but entries that were
/// given.
pub proof fn lemma_dict_of<V>(entries: Seq<(Seq<u8>, V)>)
    ensures
        keys_increasing(dict_of(entries)),
        forall|i: int|
            0 <= i < dict_of(entries).len() ==> entries.contains(#[trigger] dict_of(entries)[i]),
{
    broadcast use vstd::seq_lib::group_to_multiset_ensures;

    lemma_sort_entries(entries);
    lemma_dedup_last(sort_entries(entries));
    let d = dict_of(entries);
    assert forall|i: int| 0 <= i < d.len() implies entries.contains(#[trigger] d[i]) by {
        assert(sort_entries(entries).contains(d[i]));
        assert(sort_entries(entries).to_multiset().count(d[i]) > 0);
    }
}

/// **A dictionary from its own entries.** Entries with rising keys make the
/// dictionary that they are.
pub proof fn lemma_dict_of_increasing<V>(d: Seq<(Seq<u8>, V)>)
    requires
        keys_increasing(d),
    ensures
        dict_of(d) == d,
{
    assert(keys_sorted(d)) by {
        assert forall|i: int, j: int| 0 <= i < j < d.len() implies lex_le(
            #[trigger] d[i].0,
            #[trigger] d[j].0,
        ) by {
            assert(lex_lt(d[i].0, d[j].0));
        }
    }
    lemma_sort_entries_of_sorted(d);
    lemma_dedup_last_of_increasing(d);
}

/// Where the scan from the back stops is where `assoc_insert` puts the entry,
/// or finds the entry that it replaces.
pub proof fn lemma_assoc_insert_at<V>(s: Seq<(Seq<u8>, V)>, k: Seq<u8>, v: V, at: int)
    requires
        0 <= at <= s.len(),
        forall|i: int| at <= i < s.len() ==> !lex_le(#[trigger] s[i].0, k),
        at == 0 || lex_le(s[at - 1].0, k),
    ensures
        assoc_insert(s, k, v) == if at > 0 && s[at - 1].0 == k {
            s.update(at - 1, (k, v))
        } else {
            s.insert(at, (k, v))
        },
    decreases s.len(),
{
    lemma_lex_le_refl(k);
    if s.len() == 0 {
        assert(seq![(k, v)] =~= s.insert(at, (k, v)));
    } else if at == s.len() {
        if s.last().0 == k {
            assert(s.drop_last().push((k, v)) =~= s.update(at - 1, (k, v)));
        } else {
            assert(s.push((k, v)) =~= s.insert(at, (k, v)));
        }
    } else {
        let front = s.drop_last();
        assert(!lex_le(s[s.len() - 1].0, k));
        assert forall|i: int| at <= i < front.len() implies !lex_le(#[trigger] front[i].0, k) by {
            assert(front[i] == s[i]);
        }
        if at > 0 {
            assert(front[at - 1] == s[at - 1]);
        }
        lemma_assoc_insert_at(front, k, v, at);
        if at > 0 && s[at - 1].0 == k {
            assert(front.update(at - 1, (k, v)).push(s.last()) =~= s.update(at - 1, (k, v)));
        } else {
            assert(front.insert(at, (k, v)).push(s.last()) =~= s.insert(at, (k, v)));
        }
    }
}

/// Putting an entry into a dictionary keeps the keys rising, and the
/// dictionary then holds that entry and every other entry it held under
/// another key.
pub proof fn lemma_assoc_insert<V>(s: Seq<(Seq<u8>, V)>, k: Seq<u8>, v: V)
    requires
        keys_increasing(s),
    ensures
        keys_increasing(assoc_insert(s, k, v)),
        assoc_insert(s, k, v).contains((k, v)),
        forall|e: (Seq<u8>, V)|
            #![trigger assoc_insert(s, k, v).contains(e)]
            #![trigger s.contains(e)]
            assoc_insert(s, k, v).contains(e) <==> e == (k, v) || (s.contains(e) && e.0 != k),
        forall|i: int|
            0 <= i < assoc_insert(s, k, v).len() ==> (#[trigger] assoc_insert(s, k, v)[i]) == (k, v)
                || s.contains(assoc_insert(s, k, v)[i]),
    decreases s.len(),
{
    let r = assoc_insert(s, k, v);
    if s.len() == 0 {
        assert(r[0] == (k, v));
        assert forall|e: (Seq<u8>, V)| r.contains(e) implies e == (k, v) by {
            let i = choose|i: int| 0 <= i < r.len() && r[i] == e;
            assert(0 <= i < r.len() && r[i] == e);
        }
        assert(r.contains((k, v)));
        assert forall|e: (Seq<u8>, V)| s.contains(e) implies false by {
            let i = choose|i: int| 0 <= i < s.len() && s[i] == e;
            assert(0 <= i < s.len() && s[i] == e);
        }
    } else {
        let front = s.drop_last();
        let top = s.last();
        assert(keys_increasing(front)) by {
            assert forall|i: int, j: int| 0 <= i < j < front.len() implies lex_lt(
                #[trigger] front[i].0,
                #[trigger] front[j].0,
            ) by {
                assert(front[i] == s[i] && front[j] == s[j]);
            }
        }
        assert forall|i: int| 0 <= i < front.len() implies lex_lt(
            (#[trigger] front[i]).0,
            top.0,
        ) by {
            assert(front[i] == s[i]);
            assert(lex_lt(s[i].0, s[s.len() - 1].0));
        }
        if top.0 == k || lex_le(top.0, k) {
            let r2 = front.push((k, v));
            if top.0 == k {
                assert(r == r2);
            } else {
                assert(r == s.push((k, v)));
            }
            assert(keys_increasing(r)) by {
                assert forall|i: int, j: int| 0 <= i < j < r.len() implies lex_lt(
                    #[trigger] r[i].0,
                    #[trigger] r[j].0,
                ) by {
                    if top.0 == k {
                        if j == r.len() - 1 {
                            assert(r[i] == front[i]);
                        } else {
                            assert(r[i] == s[i] && r[j] == s[j]);
                        }
                    } else {
                        if j == r.len() - 1 {
                            assert(r[i] == s[i]);
                            if i < s.len() - 1 {
                                assert(lex_lt(s[i].0, s[s.len() - 1].0));
                                crate::order::lemma_lex_lt_trans(s[i].0, top.0, k);
                            }
                        } else {
                            assert(r[i] == s[i] && r[j] == s[j]);
                        }
                    }
                }
            }
            assert forall|e: (Seq<u8>, V)| r.contains(e) implies e == (k, v) || (s.contains(e)
                && e.0 != k) by {
                let i = choose|i: int| 0 <= i < r.len() && r[i] == e;
                assert(0 <= i < r.len() && r[i] == e);
                if i < r.len() - 1 {
                    assert(s[i] == e);
                    assert(s.contains(e));
                    if e.0 == k {
                        if top.0 == k {
                            assert(lex_lt(s[i].0, s[s.len() - 1].0));
                        } else {
                            if i < s.len() - 1 {
                                assert(lex_lt(s[i].0, s[s.len() - 1].0));
                                crate::order::lemma_lex_lt_trans(s[i].0, top.0, k);
                            }
                            lemma_lex_le_antisym(top.0, k);
                        }
                    }
                }
            }
            assert(r[r.len() - 1] == (k, v));
            assert(r.contains((k, v)));
            assert forall|e: (Seq<u8>, V)| s.contains(e) && e.0 != k implies r.contains(e) by {
                let i = choose|i: int| 0 <= i < s.len() && s[i] == e;
                assert(0 <= i < s.len() && s[i] == e);
                assert(r[i] == e);
            }
            assert forall|i: int| 0 <= i < r.len() implies (#[trigger] r[i]) == (k, v)
                || s.contains(r[i]) by {
                if i < r.len() - 1 {
                    assert(r[i] == s[i]);
                }
            }
        } else {
            lemma_assoc_insert(front, k, v);
            let inner = assoc_insert(front, k, v);
            assert(r == inner.push(top));
            lemma_lex_le_total(top.0, k);
            lemma_lex_le_refl(k);
            assert(keys_increasing(r)) by {
                assert forall|i: int, j: int| 0 <= i < j < r.len() implies lex_lt(
                    #[trigger] r[i].0,
                    #[trigger] r[j].0,
                ) by {
                    if j == r.len() - 1 {
                        assert(r[i] == inner[i]);
                        if inner[i] == (k, v) {
                            if top.0 == k {
                            }
                        } else {
                            assert(front.contains(inner[i]));
                            let p = choose|p: int| 0 <= p < front.len() && front[p] == inner[i];
                            assert(lex_lt(front[p].0, top.0));
                        }
                    } else {
                        assert(r[i] == inner[i] && r[j] == inner[j]);
                    }
                }
            }
            assert forall|e: (Seq<u8>, V)| r.contains(e) implies e == (k, v) || (s.contains(e)
                && e.0 != k) by {
                let i = choose|i: int| 0 <= i < r.len() && r[i] == e;
                assert(0 <= i < r.len() && r[i] == e);
                if i < r.len() - 1 {
                    assert(inner[i] == e);
                    assert(inner.contains(e));
                    if e != (k, v) {
                        assert(front.contains(e) && e.0 != k);
                        let p = choose|p: int| 0 <= p < front.len() && front[p] == e;
                        assert(s[p] == e);
                        assert(s.contains(e));
                    }
                } else {
                    assert(s[s.len() - 1] == e);
                    assert(s.contains(e));
                }
            }
            assert(r.contains((k, v))) by {
                assert(inner.contains((k, v)));
                let i = choose|i: int| 0 <= i < inner.len() && inner[i] == (k, v);
                assert(r[i] == (k, v));
            }
            assert forall|e: (Seq<u8>, V)| s.contains(e) && e.0 != k implies r.contains(e) by {
                let p = choose|p: int| 0 <= p < s.len() && s[p] == e;
                assert(0 <= p < s.len() && s[p] == e);
                if p == s.len() - 1 {
                    assert(r[r.len() - 1] == e);
                } else {
                    assert(front[p] == e);
                    assert(front.contains(e));
                    assert(inner.contains(e));
                    let i = choose|i: int| 0 <= i < inner.len() && inner[i] == e;
                    assert(r[i] == e);
                }
            }
            assert forall|i: int| 0 <= i < r.len() implies (#[trigger] r[i]) == (k, v)
                || s.contains(r[i]) by {
                if i < r.len() - 1 {
                    assert(r[i] == inner[i]);
                    if inner[i] != (k, v) {
                        assert(front.contains(inner[i]));
                        let p = choose|p: int| 0 <= p < front.len() && front[p] == inner[i];
                        assert(s[p] == inner[i]);
                    }
                } else {
                    assert(s[s.len() - 1] == r[i]);
                }
            }
        }
    }
}

/// **Order of insertion.** Two entries with different keys can be put into a
/// dictionary in either order: the dictionary is the same.
pub proof fn lemma_assoc_insert_commutes<V>(
    s: Seq<(Seq<u8>, V)>,
    k1: Seq<u8>,
    v1: V,
    k2: Seq<u8>,
    v2: V,
)
    requires
        keys_increasing(s),
        k1 != k2,
    ensures
        assoc_insert(assoc_insert(s, k1, v1), k2, v2) == assoc_insert(
            assoc_insert(s, k2, v2),
            k1,
            v1,
        ),
{
    lemma_assoc_insert(s, k1, v1);
    lemma_assoc_insert(s, k2, v2);
    lemma_assoc_insert(assoc_insert(s, k1, v1), k2, v2);
    lemma_assoc_insert(assoc_insert(s, k2, v2), k1, v1);
    let a = assoc_insert(assoc_insert(s, k1, v1), k2, v2);
    let b = assoc_insert(assoc_insert(s, k2, v2), k1, v1);
    assert forall|e: (Seq<u8>, V)| a.contains(e) <==> b.contains(e) by {
        assert(assoc_insert(s, k1, v1).contains(e) <==> e == (k1, v1) || (s.contains(e) && e.0
            != k1));
        assert(assoc_insert(s, k2, v2).contains(e) <==> e == (k2, v2) || (s.contains(e) && e.0
            != k2));
        assert(a.contains(e) <==> e == (k2, v2) || (assoc_insert(s, k1, v1).contains(e) && e.0
            != k2));
        assert(b.contains(e) <==> e == (k1, v1) || (assoc_insert(s, k2, v2).contains(e) && e.0
            != k1));
    }
    lemma_increasing_unique(
        assoc_insert(assoc_insert(s, k1, v1), k2, v2),
        assoc_insert(assoc_insert(s, k2, v2), k1, v1),
    );
}

/// The entries of `s` that stand under the key `k`, in their order.
pub open spec fn with_key<V>(s: Seq<(Seq<u8>, V)>, k: Seq<u8>) -> Seq<(Seq<u8>, V)>
    decreases s.len(),
{
    if s.len() == 0 {
        s
    } else if s.first().0 == k {
        seq![s.first()] + with_key(s.drop_first(), k)
    } else {
        with_key(s.drop_first(), k)
    }
}

/// The entries under a key in two lists put end to end are those of the
/// first, then those of the second.
pub proof fn lemma_with_key_add<V>(a: Seq<(Seq<u8>, V)>, b: Seq<(Seq<u8>, V)>, k: Seq<u8>)
    ensures
        with_key(a + b, k) == with_key(a, k) + with_key(b, k),
    decreases a.len(),
{
    if a.len() == 0 {
        assert(a + b =~= b);
        assert(with_key(a, k) + with_key(b, k) =~= with_key(b, k));
    } else {
        lemma_with_key_add(a.drop_first(), b, k);
        assert((a + b).drop_first() =~= a.drop_first() + b);
        assert((a + b).first() == a.first());
        if a.first().0 == k {
            assert(seq![a.first()] + (with_key(a.drop_first(), k) + with_key(b, k)) =~= seq![
                a.first(),
            ] + with_key(a.drop_first(), k) + with_key(b, k));
        }
    }
}

/// A list without an entry under a key has nothing to show for that key.
pub proof fn lemma_with_key_none<V>(s: Seq<(Seq<u8>, V)>, k: Seq<u8>)
    requires
        forall|i: int| 0 <= i < s.len() ==> (#[trigger] s[i]).0 != k,
    ensures
        with_key(s, k).len() == 0,
    decreases s.len(),
{
    if s.len() > 0 {
        assert(s[0].0 != k);
        assert forall|i: int| 0 <= i < s.drop_first().len() implies (#[trigger] s.drop_first()[
            i
        ]).0 != k by {
            assert(s.drop_first()[i] == s[i + 1]);
        }
        lemma_with_key_none(s.drop_first(), k);
    }
}

/// The entries under a key are entries of the list and stand under that key.
pub proof fn lemma_with_key_members<V>(s: Seq<(Seq<u8>, V)>, k: Seq<u8>)
    ensures
        forall|i: int|
            0 <= i < with_key(s, k).len() ==> (#[trigger] with_key(s, k)[i]).0 == k && s.contains(
                with_key(s, k)[i],
            ),
    decreases s.len(),
{
    if s.len() > 0 {
        lemma_with_key_members(s.drop_first(), k);
        let rest = with_key(s.drop_first(), k);
        let w = with_key(s, k);
        assert forall|i: int| 0 <= i < w.len() implies (#[trigger] w[i]).0 == k && s.contains(
            w[i],
        ) by {
            if s.first().0 == k && i == 0 {
                assert(s[0] == w[0]);
            } else {
                let j = if s.first().0 == k {
                    i - 1
                } else {
                    i
                };
                assert(w[i] == rest[j]);
                assert(s.drop_first().contains(rest[j]));
                let p = choose|p: int|
                    0 <= p < s.drop_first().len() && s.drop_first()[p] == rest[j];
                assert(s[p + 1] == rest[j]);
            }
        }
    }
}

/// Merging keeps the order of the entries under each key: those of `a`
/// first, then those of `b`.
pub proof fn lemma_merge_entries_stable<V>(a: Seq<(Seq<u8>, V)>, b: Seq<(Seq<u8>, V)>, k: Seq<u8>)
    requires
        keys_sorted(a),
        keys_sorted(b),
    ensures
        with_key(merge_entries(a, b), k) == with_key(a, k) + with_key(b, k),
    decreases a.len() + b.len(),
{
    if a.len() == 0 {
        assert(with_key(a, k) + with_key(b, k) =~= with_key(b, k));
    } else if b.len() == 0 {
        assert(with_key(a, k) + with_key(b, k) =~= with_key(a, k));
    } else if lex_le(a.first().0, b.first().0) {
        let rest = merge_entries(a.drop_first(), b);
        lemma_keys_sorted_part(a, 1, a.len() as int);
        lemma_merge_entries_stable(a.drop_first(), b, k);
        lemma_with_key_add(seq![a.first()], rest, k);
        lemma_with_key_add(seq![a.first()], a.drop_first(), k);
        assert(seq![a.first()] + a.drop_first() =~= a);
        assert(with_key(seq![a.first()], k) + (with_key(a.drop_first(), k) + with_key(b, k))
            =~= with_key(seq![a.first()], k) + with_key(a.drop_first(), k) + with_key(b, k));
    } else {
        let rest = merge_entries(a, b.drop_first());
        lemma_keys_sorted_part(b, 1, b.len() as int);
        lemma_merge_entries_stable(a, b.drop_first(), k);
        lemma_with_key_add(seq![b.first()], rest, k);
        lemma_with_key_add(seq![b.first()], b.drop_first(), k);
        assert(seq![b.first()] + b.drop_first() =~= b);
        let head = with_key(seq![b.first()], k);
        if b.first().0 == k {
            lemma_lex_le_total(a.first().0, b.first().0);
            assert forall|i: int| 0 <= i < a.len() implies (#[trigger] a[i]).0 != k by {
                if i > 0 {
                    assert(lex_le(a[0].0, a[i].0));
                }
                lemma_lex_le_refl(a[0].0);
                if a[i].0 == k {
                    lemma_lex_le_trans(a[0].0, a[i].0, b[0].0);
                }
            }
            lemma_with_key_none(a, k);
            assert(head + (with_key(a, k) + with_key(b.drop_first(), k)) =~= with_key(a, k) + (
            head + with_key(b.drop_first(), k)));
        } else {
            assert(seq![b.first()].drop_first() =~= Seq::<(Seq<u8>, V)>::empty());
            assert(head.len() == 0);
            assert(head + (with_key(a, k) + with_key(b.drop_first(), k)) =~= with_key(a, k) + (
            head + with_key(b.drop_first(), k)));
        }
    }
}

/// **Stable order.** Sorting keeps the order of the entries under each key.
pub proof fn lemma_sort_entries_stable<V>(s: Seq<(Seq<u8>, V)>, k: Seq<u8>)
    ensures
        with_key(sort_entries(s), k) == with_key(s, k),
    decreases s.len(),
{
    if s.len() > 1 {
        let h = s.len() as int / 2;
        let left = s.take(h);
        let right = s.skip(h);
        lemma_sort_entries_stable(left, k);
        lemma_sort_entries_stable(right, k);
        lemma_sort_entries(left);
        lemma_sort_entries(right);
        lemma_merge_entries_stable(sort_entries(left), sort_entries(right), k);
        lemma_with_key_add(left, right, k);
        assert(left + right =~= s);
    }
}

/// In what `dedup_last` leaves of a sorted list stand exactly the entries
/// that are the last under their key.
pub proof fn lemma_dedup_last_members<V>(s: Seq<(Seq<u8>, V)>, e: (Seq<u8>, V))
    requires
        keys_sorted(s),
    ensures
        dedup_last(s).contains(e) <==> with_key(s, e.0).len() > 0 && with_key(s, e.0).last() == e,
    decreases s.len(),
{
    if s.len() == 0 {
        if dedup_last(s).contains(e) {
            let i = choose|i: int| 0 <= i < dedup_last(s).len() && dedup_last(s)[i] == e;
        }
    } else {
        let rest = s.drop_last();
        let top = s.last();
        let front = dedup_last(rest);
        let r = dedup_last(s);
        let kept = if front.len() > 0 && front.last().0 == top.0 {
            front.drop_last()
        } else {
            front
        };
        assert(r == kept.push(top));
        lemma_keys_sorted_part(s, 0, s.len() - 1);
        lemma_dedup_last(s);
        lemma_dedup_last(rest);
        lemma_dedup_last_members(rest, e);
        lemma_with_key_add(rest, seq![top], e.0);
        assert(rest + seq![top] =~= s);
        assert(seq![top].drop_first() =~= Seq::<(Seq<u8>, V)>::empty());
        assert(with_key(Seq::<(Seq<u8>, V)>::empty(), e.0).len() == 0);
        if e.0 == top.0 {
            assert(with_key(seq![top], e.0) =~= seq![top]);
            assert(with_key(s, e.0).last() == top);
            if r.contains(e) {
                let i = choose|i: int| 0 <= i < r.len() && r[i] == e;
                if i < r.len() - 1 {
                    assert(lex_lt(r[i].0, r[r.len() - 1].0));
                }
            }
            if e == top {
                assert(r[r.len() - 1] == e);
            }
        } else {
            assert(with_key(seq![top], e.0) =~= Seq::<(Seq<u8>, V)>::empty());
            assert(with_key(s, e.0) =~= with_key(rest, e.0));
            if r.contains(e) {
                let i = choose|i: int| 0 <= i < r.len() && r[i] == e;
                assert(i < r.len() - 1);
                assert(kept[i] == e);
                assert(front[i] == e);
                assert(front.contains(e));
            }
            if front.contains(e) {
                let i = choose|i: int| 0 <= i < front.len() && front[i] == e;
                if i < kept.len() {
                    assert(r[i] == e);
                } else {
                    assert(front.last().0 == top.0);
                }
            }
        }
    }
}

/// In the dictionary that entries make stand exactly the entries that are
/// the last that came under their key.
pub proof fn lemma_dict_of_members<V>(entries: Seq<(Seq<u8>, V)>, e: (Seq<u8>, V))
    ensures
        dict_of(entries).contains(e) <==> with_key(entries, e.0).len() > 0 && with_key(
            entries,
            e.0,
        ).last() == e,
{
    lemma_sort_entries(entries);
    lemma_sort_entries_stable(entries, e.0);
    lemma_dedup_last_members(sort_entries(entries), e);
}

/// **The last entry under a key stays.** The dictionary that entries make is
/// the dictionary that comes of putting them in one after the other, each in
/// place of the entry that stood under its key.
pub proof fn lemma_dict_of_push<V>(entries: Seq<(Seq<u8>, V)>, k: Seq<u8>, v: V)
    ensures
        dict_of(entries.push((k, v))) == assoc_insert(dict_of(entries), k, v),
{
    let more = entries.push((k, v));
    let a = dict_of(more);
    let b = assoc_insert(dict_of(entries), k, v);
    lemma_dict_of(more);
    lemma_dict_of(entries);
    lemma_assoc_insert(dict_of(entries), k, v);
    assert(entries + seq![(k, v)] =~= more);
    assert(seq![(k, v)].drop_first() =~= Seq::<(Seq<u8>, V)>::empty());
    assert forall|e: (Seq<u8>, V)| a.contains(e) <==> b.contains(e) by {
        lemma_dict_of_members(more, e);
        lemma_dict_of_members(entries, e);
        lemma_with_key_add(entries, seq![(k, v)], e.0);
        assert(with_key(Seq::<(Seq<u8>, V)>::empty(), e.0).len() == 0);
        if e.0 == k {
            assert(with_key(seq![(k, v)], e.0) =~= seq![(k, v)]);
            assert(with_key(more, e.0).last() == (k, v));
        } else {
            assert(with_key(seq![(k, v)], e.0) =~= Seq::<(Seq<u8>, V)>::empty());
            assert(with_key(more, e.0) =~= with_key(entries, e.0));
        }
        assert(b.contains(e) <==> e == (k, v) || (dict_of(entries).contains(e) && e.0 != k));
    }
    lemma_increasing_unique(a, b);
}

/// The entries of a vector, each key by its bytes.
pub open spec fn keyed<V>(v: Seq<(Vec<u8>, V)>) -> Seq<(Seq<u8>, V)> {
    Seq::new(v.len(), |i: int| (v[i].0@, v[i].1))
}

/// The entries of a vector, each key and value by its bytes.
pub open spec fn entries_view(v: Seq<(Vec<u8>, Vec<u8>)>) -> Seq<(Seq<u8>, Seq<u8>)> {
    map_payload(keyed(v), |value: Vec<u8>| value@)
}

/// Turns a vector round: what was last comes first.
fn reversed<V>(v: Vec<(Vec<u8>, V)>) -> (r: Vec<(Vec<u8>, V)>)
    ensures
        r@ == v@.reverse(),
{
    let mut v = v;
    let mut r: Vec<(Vec<u8>, V)> = Vec::new();
    let ghost all = v@;
    while v.len() > 0
        invariant
            v.len() <= all.len(),
            v@ == all.take(v.len() as int),
            r@ == all.skip(v.len() as int).reverse(),
        decreases v.len(),
    {
        let ghost n = v.len() as int;
        match v.pop() {
            Some(e) => {
                r.push(e);
                assert(r@ =~= all.skip(n - 1).reverse());
                assert(v@ =~= all.take(n - 1));
            },
            None => {},
        }
    }
    assert(r@ =~= all.reverse());
    r
}

/// Moves what is left on a stack to the end of `out`, top first.
fn drain<V>(out: &mut Vec<(Vec<u8>, V)>, stack: Vec<(Vec<u8>, V)>)
    ensures
        final(out)@ == old(out)@ + stack@.reverse(),
{
    let mut stack = stack;
    let ghost all = stack@;
    while stack.len() > 0
        invariant
            stack.len() <= all.len(),
            stack@ == all.take(stack.len() as int),
            out@ == old(out)@ + all.skip(stack.len() as int).reverse(),
        decreases stack.len(),
    {
        let ghost n = stack.len() as int;
        match stack.pop() {
            Some(e) => {
                out.push(e);
                assert(out@ =~= old(out)@ + all.skip(n - 1).reverse());
                assert(stack@ =~= all.take(n - 1));
            },
            None => {},
        }
    }
    assert(out@ =~= old(out)@ + all.reverse());
}

/// Merges two sorted vectors.
fn merge<V>(a: Vec<(Vec<u8>, V)>, b: Vec<(Vec<u8>, V)>) -> (out: Vec<(Vec<u8>, V)>)
    ensures
        keyed(out@) == merge_entries(keyed(a@), keyed(b@)),
{
    let mut left = reversed(a);
    let mut right = reversed(b);
    let mut out: Vec<(Vec<u8>, V)> = Vec::new();
    assert(left@.reverse() =~= a@);
    assert(right@.reverse() =~= b@);
    assert(keyed(out@) + merge_entries(keyed(a@), keyed(b@)) =~= merge_entries(
        keyed(a@),
        keyed(b@),
    ));
    while left.len() > 0 && right.len() > 0
        invariant
            keyed(out@) + merge_entries(keyed(left@.reverse()), keyed(right@.reverse()))
                == merge_entries(keyed(a@), keyed(b@)),
        decreases left.len() + right.len(),
    {
        let ghost la = keyed(left@.reverse());
        let ghost lb = keyed(right@.reverse());
        let ghost before = keyed(out@);
        assert(la.first() == (left@[left.len() - 1].0@, left@[left.len() - 1].1));
        assert(lb.first() == (right@[right.len() - 1].0@, right@[right.len() - 1].1));
        let from_left = bytes_le(
            left[left.len() - 1].0.as_slice(),
            right[right.len() - 1].0.as_slice(),
        );
        let ghost old_left = left@;
        let ghost old_right = right@;
        let next = if from_left {
            left.pop()
        } else {
            right.pop()
        };
        match next {
            Some(e) => {
                out.push(e);
                proof {
                    if from_left {
                        assert(keyed(left@.reverse()) =~= la.drop_first());
                        assert(keyed(out@) =~= before + seq![la.first()]);
                        assert(before + (seq![la.first()] + merge_entries(la.drop_first(), lb))
                            =~= before + seq![la.first()] + merge_entries(la.drop_first(), lb));
                    } else {
                        assert(keyed(right@.reverse()) =~= lb.drop_first());
                        assert(keyed(out@) =~= before + seq![lb.first()]);
                        assert(before + (seq![lb.first()] + merge_entries(la, lb.drop_first()))
                            =~= before + seq![lb.first()] + merge_entries(la, lb.drop_first()));
                    }
                }
            },
            None => {},
        }
    }
    let ghost la = keyed(left@.reverse());
    let ghost lb = keyed(right@.reverse());
    let ghost before = keyed(out@);
    drain(&mut out, left);
    drain(&mut out, right);
    proof {
        assert(keyed(out@) =~= before + la + lb);
        if la.len() == 0 {
            assert(before + la + lb =~= before + merge_entries(la, lb));
        } else {
            assert(lb.len() == 0);
            assert(before + la + lb =~= before + merge_entries(la, lb));
        }
    }
    out
}

/// Sorts entries by key, byte-wise, by merge sort; entries with the same key
/// keep their order.
pub fn sort_pairs<V>(entries: Vec<(Vec<u8>, V)>) -> (sorted: Vec<(Vec<u8>, V)>)
    ensures
        keyed(sorted@) == sort_entries(keyed(entries@)),
    decreases entries.len(),
{
    if entries.len() <= 1 {
        return entries;
    }
    let ghost all = keyed(entries@);
    let mut left = entries;
    let half = left.len() / 2;
    let right = left.split_off(half);
    assert(keyed(left@) =~= all.take(half as int));
    assert(keyed(right@) =~= all.skip(half as int));
    let left = sort_pairs(left);
    let right = sort_pairs(right);
    merge(left, right)
}

/// Sorts entries by key, byte-wise; entries with the same key keep their order.
pub fn sort_by_key(entries: Vec<(Vec<u8>, Vec<u8>)>) -> (sorted: Vec<(Vec<u8>, Vec<u8>)>)
    ensures
        entries_view(sorted@) == sort_entries(entries_view(entries@)),
{
    proof {
        lemma_sort_map_payload(keyed(entries@), |value: Vec<u8>| value@);
    }
    sort_pairs(entries)
}

/// Of neighbours with the same key, keeps only the last.
pub fn dedup_pairs<V>(entries: Vec<(Vec<u8>, V)>) -> (kept: Vec<(Vec<u8>, V)>)
    ensures
        keyed(kept@) == dedup_last(keyed(entries@)),
{
    let ghost all = keyed(entries@);
    let mut kept: Vec<(Vec<u8>, V)> = Vec::new();
    assert(keyed(kept@) =~= dedup_last(all.take(0)));
    for e in iter: entries
        invariant
            all == keyed(iter.seq()),
            keyed(kept@) == dedup_last(all.take(iter.index() as int)),
    {
        let ghost before = keyed(kept@);
        proof {
            let next = all.take(iter.index() + 1);
            assert(next.drop_last() =~= all.take(iter.index() as int));
            assert(next.last() == (e.0@, e.1));
        }
        if kept.len() > 0 && bytes_eq(kept[kept.len() - 1].0.as_slice(), e.0.as_slice()) {
            let _ = kept.pop();
            assert(keyed(kept@) =~= before.drop_last());
        }
        let ghost middle = keyed(kept@);
        kept.push(e);
        assert(keyed(kept@) =~= middle.push((e.0@, e.1)));
    }
    assert(all.take(all.len() as int) =~= all);
    kept
}

} // verus!
