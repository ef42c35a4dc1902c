//! The ranking of the largest entries seen so far.
//!
//! A ranking is listed from the largest entry down, entries of equal size by path. It holds at
//! most `limit` entries; a newcomer that finds it full must be larger than the smallest entry
//! listed, which then gives up its place.

use crate::item::{item_less, same_entry, text_less, HeapItem, ItemView};
use crate::item::{lemma_item_total, lemma_text_total, lemma_text_transitive};
use std::cmp::Ordering;
use vstd::multiset::Multiset;
use vstd::prelude::*;

verus! {

/// The entries that a list of stored ones stands for.
pub open spec fn views(items: Seq<HeapItem>) -> Seq<ItemView> {
    Seq::new(items.len(), |i: int| items[i]@)
}

/// Entry `a` is listed above entry `b`: it is larger, or equally large with the earlier path.
pub open spec fn ranks_before(a: ItemView, b: ItemView) -> bool {
    a.size > b.size || (a.size == b.size && text_less(a.path, b.path))
}

/// No entry is listed below one that it ranks before.
pub open spec fn ranked(s: Seq<ItemView>) -> bool {
    forall|i: int, j: int| 0 <= i < j < s.len() ==> !ranks_before(#[trigger] s[j], #[trigger] s[i])
}

/// The ranking `s` with `x` put in below every entry that `x` does not rank before.
pub open spec fn ranked_insert(s: Seq<ItemView>, x: ItemView) -> Seq<ItemView>
    decreases s.len(),
{
    if s.len() == 0 || !ranks_before(x, s.last()) {
        s.push(x)
    } else {
        ranked_insert(s.drop_last(), x).push(s.last())
    }
}

/// Where the smallest entry of `s` stands; the first place, if the same entry stands in several.
pub open spec fn smallest(s: Seq<ItemView>) -> int
    decreases s.len(),
{
    if s.len() <= 1 {
        0
    } else {
        let m = smallest(s.drop_last());
        if item_less(s.last(), s[m]) {
            s.len() - 1
        } else {
            m
        }
    }
}

/// The ranking after `x` has competed for a place in `s`.
pub open spec fn keep(limit: nat, s: Seq<ItemView>, x: ItemView) -> Seq<ItemView> {
    if limit == 0 {
        s
    } else if s.len() < limit {
        ranked_insert(s, x)
    } else if x.size > s[smallest(s)].size {
        ranked_insert(s.remove(smallest(s)), x)
    } else {
        s
    }
}

/// The ranking after all of `seen` have competed, in that order, starting with none.
pub open spec fn keep_all(limit: nat, seen: Seq<ItemView>) -> Seq<ItemView>
    decreases seen.len(),
{
    if seen.len() == 0 {
        Seq::empty()
    } else {
        keep(limit, keep_all(limit, seen.drop_last()), seen.last())
    }
}

/// `x` is among `seen` more often than among `kept`.
pub open spec fn left_out(seen: Seq<ItemView>, kept: Seq<ItemView>, x: ItemView) -> bool {
    seen.to_multiset().count(x) > kept.to_multiset().count(x)
}

/// `kept` holds `limit` of the entries `seen`, or all of them if they are fewer, and nothing else;
/// no entry that was left out is larger than one that was kept.
pub open spec fn largest_of(limit: nat, seen: Seq<ItemView>, kept: Seq<ItemView>) -> bool {
    &&& kept.len() == if seen.len() < limit {
        seen.len()
    } else {
        limit
    }
    &&& kept.to_multiset().subset_of(seen.to_multiset())
    &&& seen.len() <= limit ==> kept.to_multiset() == seen.to_multiset()
    &&& forall|x: ItemView, k: ItemView| #[trigger]
        left_out(seen, kept, x) && #[trigger] kept.contains(k) ==> x.size <= k.size
}

/// "Not listed below" carries over from neighbour to neighbour.
proof fn lemma_rank_chain(a: ItemView, b: ItemView, c: ItemView)
    requires
        !ranks_before(b, a),
        !ranks_before(c, b),
    ensures
        !ranks_before(c, a),
{
    lemma_text_total(a.path, b.path);
    lemma_text_total(b.path, c.path);
    lemma_text_total(a.path, c.path);
    if a.size == b.size && b.size == c.size && text_less(c.path, a.path) {
        if a.path != b.path && b.path != c.path {
            lemma_text_transitive(a.path, b.path, c.path);
        }
    }
}

/// Putting an entry into a ranking adds that entry, adds nothing else and leaves it a ranking.
pub proof fn lemma_ranked_insert(s: Seq<ItemView>, x: ItemView)
    requires
        ranked(s),
    ensures
        ranked(ranked_insert(s, x)),
        ranked_insert(s, x).len() == s.len() + 1,
        ranked_insert(s, x).to_multiset() == s.to_multiset().insert(x),
        forall|k: ItemView| #[trigger]
            ranked_insert(s, x).contains(k) ==> k == x || s.contains(k),
    decreases s.len(),
{
    broadcast use {vstd::seq_lib::group_to_multiset_ensures, vstd::multiset::group_multiset_axioms};

    let r = ranked_insert(s, x);
    if s.len() == 0 || !ranks_before(x, s.last()) {
        assert forall|i: int, j: int| 0 <= i < j < r.len() implies !ranks_before(
            #[trigger] r[j],
            #[trigger] r[i],
        ) by {
            if j == s.len() && i < s.len() - 1 {
                lemma_rank_chain(s[i], s.last(), x);
            }
        }
        assert forall|k: ItemView| #[trigger] r.contains(k) implies k == x || s.contains(k) by {
            let i = choose|i: int| 0 <= i < r.len() && r[i] == k;
            if i < s.len() {
                assert(s[i] == k);
            }
        }
    } else {
        let front = s.drop_last();
        let inner = ranked_insert(front, x);
        assert(ranked(front));
        lemma_ranked_insert(front, x);
        assert(s =~= front.push(s.last()));
        assert(r.to_multiset() =~= s.to_multiset().insert(x));
        assert forall|i: int, j: int| 0 <= i < j < r.len() implies !ranks_before(
            #[trigger] r[j],
            #[trigger] r[i],
        ) by {
            if j == inner.len() {
                assert(inner.contains(inner[i]));
                if inner[i] == x {
                    lemma_text_total(x.path, s.last().path);
                } else {
                    let k = choose|k: int| 0 <= k < front.len() && front[k] == inner[i];
                    assert(s[k] == inner[i]);
                }
            }
        }
        assert forall|k: ItemView| #[trigger] r.contains(k) implies k == x || s.contains(k) by {
            let i = choose|i: int| 0 <= i < r.len() && r[i] == k;
            if i < inner.len() {
                assert(inner.contains(k));
                if k != x {
                    let h = choose|h: int| 0 <= h < front.len() && front[h] == k;
                    assert(s[h] == k);
                }
            } else {
                assert(s[s.len() - 1] == k);
            }
        }
    }
}

/// An entry put in at a place below all that it does not rank before, and above all that it does,
/// stands where `ranked_insert` puts it.
proof fn lemma_insert_place(s: Seq<ItemView>, x: ItemView, p: int)
    requires
        0 <= p <= s.len(),
        p > 0 ==> !ranks_before(x, s[p - 1]),
        forall|i: int| p <= i < s.len() ==> ranks_before(x, #[trigger] s[i]),
    ensures
        ranked_insert(s, x) == s.insert(p, x),
    decreases s.len(),
{
    if p == s.len() {
        assert(s.insert(p, x) =~= s.push(x));
    } else {
        lemma_insert_place(s.drop_last(), x, p);
        assert(s.insert(p, x) =~= s.drop_last().insert(p, x).push(s.last()));
    }
}

/// The place that `ranked_insert` finds.
proof fn lemma_insert_somewhere(s: Seq<ItemView>, x: ItemView) -> (p: int)
    ensures
        0 <= p <= s.len(),
        ranked_insert(s, x) == s.insert(p, x),
        p > 0 ==> !ranks_before(x, s[p - 1]),
        forall|i: int| p <= i < s.len() ==> ranks_before(x, #[trigger] s[i]),
    decreases s.len(),
{
    if s.len() == 0 || !ranks_before(x, s.last()) {
        assert(s.insert(s.len() as int, x) =~= s.push(x));
        s.len() as int
    } else {
        let front = s.drop_last();
        let p = lemma_insert_somewhere(front, x);
        assert forall|i: int| p <= i < s.len() implies ranks_before(x, #[trigger] s[i]) by {
            if i < front.len() {
                assert(front[i] == s[i]);
            }
        }
        assert(s.insert(p, x) =~= s.drop_last().insert(p, x).push(s.last()));
        p
    }
}

/// What `smallest` says: nothing is smaller, and all that stands earlier is larger.
pub proof fn lemma_smallest(s: Seq<ItemView>)
    requires
        s.len() > 0,
    ensures
        0 <= smallest(s) < s.len(),
        forall|i: int| 0 <= i < s.len() ==> !item_less(#[trigger] s[i], s[smallest(s)]),
        forall|i: int| 0 <= i < smallest(s) ==> item_less(s[smallest(s)], #[trigger] s[i]),
    decreases s.len(),
{
    lemma_item_total(s[0], s[0]);
    if s.len() > 1 {
        let front = s.drop_last();
        lemma_smallest(front);
        let m = smallest(front);
        assert(front[m] == s[m]);
        assert forall|i: int| 0 <= i < s.len() implies !item_less(
            #[trigger] s[i],
            s[smallest(s)],
        ) by {
            if i < s.len() - 1 {
                assert(front[i] == s[i]);
                lemma_item_total(s[i], s[m]);
                if item_less(s.last(), s[m]) && item_less(s[i], s.last()) {
                    crate::item::lemma_item_transitive(s[i], s.last(), s[m]);
                }
            } else {
                lemma_item_total(s.last(), s.last());
            }
        }
        assert forall|i: int| 0 <= i < smallest(s) implies item_less(
            s[smallest(s)],
            #[trigger] s[i],
        ) by {
            assert(front[i] == s[i]);
            if item_less(s.last(), s[m]) {
                lemma_item_total(s[i], s[m]);
                if !same_entry(s[i], s[m]) {
                    crate::item::lemma_item_transitive(s.last(), s[m], s[i]);
                }
            }
        }
    }
}

/// In a ranking the smallest entry is the first one of the least size.
proof fn lemma_smallest_place(s: Seq<ItemView>, p: int)
    requires
        ranked(s),
        0 <= p < s.len(),
        p > 0 ==> s[p - 1].size != s.last().size,
        forall|i: int| p <= i < s.len() ==> (#[trigger] s[i]).size == s.last().size,
    ensures
        smallest(s) == p,
{
    lemma_smallest(s);
    let m = smallest(s);
    if m < p {
        assert(!ranks_before(s[p], s[m]));
        assert(!ranks_before(s[p - 1], s[m]) || m == p - 1);
        assert(!ranks_before(s.last(), s[p - 1]));
        assert(item_less(s[p], s[m]));
    } else if p < m {
        assert(item_less(s[m], s[p]));
        assert(!ranks_before(s[m], s[p]));
    }
}

/// An entry is listed above another one if it is larger, or as large with the earlier path, and a
/// list of stored entries stands for what each of them says.
pub proof fn law_listing_order(a: ItemView, b: ItemView, items: Seq<HeapItem>)
    ensures
        a.size > b.size ==> ranks_before(a, b),
        a.size < b.size ==> !ranks_before(a, b),
        a.size == b.size ==> ranks_before(a, b) == text_less(a.path, b.path),
        views(items).len() == items.len(),
        forall|i: int| 0 <= i < items.len() ==> views(items)[i] == (#[trigger] items[i])@,
{
}

/// A newcomer gets a place between those that stay: all before it and all behind it keep their
/// order, the one just above it is not smaller, nor as large with a later path, and all below it
/// are smaller, or as large with a later path.
pub proof fn law_newcomer_is_put_between(s: Seq<ItemView>, x: ItemView)
    ensures
        exists|p: int|
            #![trigger s.insert(p, x)]
            0 <= p <= s.len() && ranked_insert(s, x) == s.insert(p, x) && (p > 0 ==> s[p - 1].size
                > x.size || (s[p - 1].size == x.size && !text_less(x.path, s[p - 1].path))) && (
            forall|i: int|
                p <= i < s.len() ==> (#[trigger] s[i]).size < x.size || (s[i].size == x.size
                    && text_less(x.path, s[i].path))),
{
    let p = lemma_insert_somewhere(s, x);
    assert(ranked_insert(s, x) == s.insert(p, x));
    assert forall|i: int| p <= i < s.len() implies (#[trigger] s[i]).size < x.size || (s[i].size
        == x.size && text_less(x.path, s[i].path)) by {
        assert(ranks_before(x, s[i]));
    }
}

/// How an entry competes. While there is room it is taken in. Once the list is full it is turned
/// away if nothing listed is smaller than it; otherwise the smallest one listed, and among several
/// of that size the one with the earliest path, makes room for it. Nothing else comes or goes, and
/// the list runs from the largest down, equal sizes by path.
pub proof fn law_competition(limit: nat, s: Seq<ItemView>, x: ItemView)
    requires
        s.len() <= limit,
        forall|i: int, j: int|
            0 <= i < j < s.len() ==> (#[trigger] s[i]).size > (#[trigger] s[j]).size || (s[i].size
                == s[j].size && !text_less(s[j].path, s[i].path)),
    ensures
        ({
            let kept = keep(limit, s, x);
            &&& s.len() < limit ==> kept.to_multiset() == s.to_multiset().insert(x)
            &&& s.len() == limit && (forall|i: int|
                0 <= i < s.len() ==> x.size <= (#[trigger] s[i]).size) ==> kept == s
            &&& s.len() == limit && (exists|i: int|
                0 <= i < s.len() && (#[trigger] s[i]).size < x.size) ==> exists|m: int|
                0 <= m < s.len() && kept.to_multiset() == s.to_multiset().remove(
                    #[trigger] s[m],
                ).insert(x) && forall|i: int|
                    0 <= i < s.len() ==> s[m].size < (#[trigger] s[i]).size || (s[m].size
                        == s[i].size && !text_less(s[i].path, s[m].path))
            &&& kept.len() == if s.len() < limit {
                s.len() + 1
            } else {
                limit
            }
            &&& forall|i: int, j: int|
                0 <= i < j < kept.len() ==> (#[trigger] kept[i]).size > (#[trigger] kept[j]).size
                    || (kept[i].size == kept[j].size && !text_less(kept[j].path, kept[i].path))
        }),
{
    broadcast use {vstd::seq_lib::group_to_multiset_ensures, vstd::multiset::group_multiset_axioms};

    let kept = keep(limit, s, x);
    assert(ranked(s));
    lemma_keep(limit, s, x);
    assert(ranked(kept));
    assert forall|i: int, j: int| 0 <= i < j < kept.len() implies (#[trigger] kept[i]).size > (
    #[trigger] kept[j]).size || (kept[i].size == kept[j].size && !text_less(
        kept[j].path,
        kept[i].path,
    )) by {
        assert(!ranks_before(kept[j], kept[i]));
    }
    if s.len() < limit {
        lemma_ranked_insert(s, x);
    } else if limit > 0 {
        lemma_smallest(s);
        let m = smallest(s);
        assert forall|i: int| 0 <= i < s.len() implies s[m].size < (#[trigger] s[i]).size || (
        s[m].size == s[i].size && !text_less(s[i].path, s[m].path)) by {
            assert(!item_less(s[i], s[m]));
        }
        if x.size > s[m].size {
            let rest = s.remove(m);
            assert(ranked(rest));
            lemma_ranked_insert(rest, x);
            assert(kept.to_multiset() == s.to_multiset().remove(s[m]).insert(x));
        }
    }
}

/// Competing entries leave a ranking a ranking, and one that fills up as far as the limit allows.
pub proof fn lemma_keep(limit: nat, s: Seq<ItemView>, x: ItemView)
    requires
        ranked(s),
        s.len() <= limit,
    ensures
        ranked(keep(limit, s, x)),
        keep(limit, s, x).len() == if s.len() < limit {
            s.len() + 1
        } else {
            limit
        },
{
    if s.len() < limit {
        lemma_ranked_insert(s, x);
    } else if limit > 0 {
        lemma_smallest(s);
        let rest = s.remove(smallest(s));
        assert(ranked(rest));
        lemma_ranked_insert(rest, x);
    }
}

/// The ranking is that of the largest entries: whatever has competed, and in whatever order, the
/// ranking holds `limit` of the entries (or all, if there are fewer), no entry that was left out
/// is larger than one that is listed, and the list runs from the largest down.
pub proof fn law_largest_are_kept(limit: nat, seen: Seq<ItemView>)
    ensures
        largest_of(limit, seen, keep_all(limit, seen)),
        ranked(keep_all(limit, seen)),
    decreases seen.len(),
{
    broadcast use {vstd::seq_lib::group_to_multiset_ensures, vstd::multiset::group_multiset_axioms};

    let kept = keep_all(limit, seen);
    if seen.len() == 0 {
        assert(kept =~= seen);
    } else {
        let before = seen.drop_last();
        let x = seen.last();
        let old_kept = keep_all(limit, before);
        law_largest_are_kept(limit, before);
        assert(seen =~= before.push(x));
        lemma_keep(limit, old_kept, x);
        if limit == 0 {
        } else if old_kept.len() < limit {
            lemma_ranked_insert(old_kept, x);
            assert(kept.to_multiset() == seen.to_multiset());
        } else {
            lemma_smallest(old_kept);
            let m = smallest(old_kept);
            assert(old_kept.contains(old_kept[m]));
            if x.size > old_kept[m].size {
                let rest = old_kept.remove(m);
                assert(ranked(rest));
                lemma_ranked_insert(rest, x);
                assert forall|y: ItemView, k: ItemView| #[trigger]
                    left_out(seen, kept, y) && #[trigger] kept.contains(k) implies y.size
                    <= k.size by {
                    if k != x {
                        let i = choose|i: int| 0 <= i < rest.len() && rest[i] == k;
                        let h = if i < m { i } else { i + 1 };
                        assert(old_kept[h] == k);
                        assert(!item_less(old_kept[h], old_kept[m]));
                    }
                    if y != old_kept[m] {
                        assert(left_out(before, old_kept, y));
                    }
                }
                assert(kept.to_multiset().subset_of(seen.to_multiset()));
            } else {
                assert forall|y: ItemView, k: ItemView| #[trigger]
                    left_out(seen, kept, y) && #[trigger] kept.contains(k) implies y.size
                    <= k.size by {
                    if y != x {
                        assert(left_out(before, old_kept, y));
                    } else {
                        let h = choose|h: int| 0 <= h < old_kept.len() && old_kept[h] == k;
                        assert(!item_less(old_kept[h], old_kept[m]));
                    }
                }
            }
        }
    }
}

/// The sizes of a list of entries.
pub open spec fn sizes(s: Seq<ItemView>) -> Seq<u64> {
    Seq::new(s.len(), |i: int| s[i].size)
}

/// How many entries are of at least this size.
spec fn count_large(s: Seq<ItemView>, size: u64) -> nat
    decreases s.len(),
{
    if s.len() == 0 {
        0
    } else if s.last().size >= size {
        count_large(s.drop_last(), size) + 1
    } else {
        count_large(s.drop_last(), size)
    }
}

/// The entries of at least this size.
spec fn large(m: Multiset<ItemView>, size: u64) -> Multiset<ItemView> {
    m.filter(|x: ItemView| x.size >= size)
}

proof fn lemma_count_large(s: Seq<ItemView>, size: u64)
    ensures
        large(s.to_multiset(), size).len() == count_large(s, size),
    decreases s.len(),
{
    broadcast use {vstd::seq_lib::group_to_multiset_ensures, vstd::multiset::group_multiset_axioms};

    if s.len() == 0 {
        assert(s.to_multiset() =~= Multiset::empty());
        assert(large(s.to_multiset(), size) =~= Multiset::empty());
    } else {
        let front = s.drop_last();
        lemma_count_large(front, size);
        assert(s =~= front.push(s.last()));
        let before = large(front.to_multiset(), size);
        if s.last().size >= size {
            assert(large(s.to_multiset(), size) =~= before.insert(s.last()));
        } else {
            assert(large(s.to_multiset(), size) =~= before);
        }
    }
}

/// In a ranking the large entries come first.
proof fn lemma_large_come_first(s: Seq<ItemView>, size: u64, i: int)
    requires
        ranked(s),
        0 <= i < s.len(),
    ensures
        s[i].size >= size ==> count_large(s, size) > i,
        s[i].size < size ==> count_large(s, size) <= i,
        count_large(s, size) <= s.len(),
    decreases s.len(),
{
    let front = s.drop_last();
    assert(ranked(front));
    if i < s.len() - 1 {
        lemma_large_come_first(front, size, i);
        assert(!ranks_before(s[s.len() - 1], s[i]));
    } else if i > 0 {
        lemma_large_come_first(front, size, i - 1);
        assert(!ranks_before(s[i], s[i - 1]));
    }
}

/// Of two lists of the largest of the same entries, whatever their limits, neither shows a larger
/// size at a place that both have.
proof fn lemma_sizes_no_smaller(
    limit: nat,
    seen: Seq<ItemView>,
    a: Seq<ItemView>,
    other_limit: nat,
    other: Seq<ItemView>,
    b: Seq<ItemView>,
    i: int,
)
    requires
        seen.to_multiset() == other.to_multiset(),
        largest_of(limit, seen, a),
        largest_of(other_limit, other, b),
        ranked(a),
        ranked(b),
        0 <= i < a.len(),
        i < b.len(),
    ensures
        a[i].size <= b[i].size,
{
    broadcast use vstd::multiset::group_multiset_axioms;

    let size = a[i].size;
    if b[i].size < size {
        let all = other.to_multiset();
        lemma_large_come_first(a, size, i);
        lemma_large_come_first(b, size, i);
        lemma_count_large(a, size);
        lemma_count_large(b, size);
        assert(large(a.to_multiset(), size).subset_of(large(all, size)));
        vstd::multiset::axiom_len_sub(large(all, size), large(a.to_multiset(), size));
        assert(b.contains(b[i]));
        assert forall|x: ItemView| large(all, size).count(x) == large(b.to_multiset(), size).count(
            x,
        ) by {
            if x.size >= size {
                assert(!left_out(other, b, x));
            }
        }
        assert(large(all, size) =~= large(b.to_multiset(), size));
    }
}

/// Which sizes are listed, and in what order, does not depend on the order in which the entries
/// were seen.
pub proof fn law_order_seen_is_immaterial(limit: nat, seen: Seq<ItemView>, other: Seq<ItemView>)
    requires
        seen.to_multiset() == other.to_multiset(),
    ensures
        sizes(keep_all(limit, seen)) == sizes(keep_all(limit, other)),
{
    broadcast use vstd::seq_lib::group_to_multiset_ensures;

    let a = keep_all(limit, seen);
    let b = keep_all(limit, other);
    law_largest_are_kept(limit, seen);
    law_largest_are_kept(limit, other);
    assert(seen.len() == seen.to_multiset().len());
    assert(other.len() == other.to_multiset().len());
    assert forall|i: int| 0 <= i < a.len() implies a[i].size == b[i].size by {
        lemma_sizes_no_smaller(limit, seen, a, limit, other, b, i);
        lemma_sizes_no_smaller(limit, other, b, limit, seen, a, i);
    }
    assert(sizes(a) =~= sizes(b));
}

/// A longer limit only extends the list of sizes: what a shorter list shows, the longer one shows
/// first, size by size.
pub proof fn law_longer_limit_extends(limit: nat, longer: nat, seen: Seq<ItemView>)
    requires
        limit <= longer,
    ensures
        sizes(keep_all(limit, seen)).is_prefix_of(sizes(keep_all(longer, seen))),
{
    let a = keep_all(limit, seen);
    let b = keep_all(longer, seen);
    law_largest_are_kept(limit, seen);
    law_largest_are_kept(longer, seen);
    assert forall|i: int| 0 <= i < a.len() implies a[i].size == b[i].size by {
        lemma_sizes_no_smaller(limit, seen, a, longer, seen, b, i);
        lemma_sizes_no_smaller(longer, seen, b, limit, seen, a, i);
    }
    assert(sizes(a) =~= sizes(b).subrange(0, sizes(a).len() as int));
}

/// Finds the smallest entry of a ranking.
pub fn find_smallest(items: &Vec<HeapItem>) -> (place: usize)
    requires
        items@.len() > 0,
        ranked(views(items@)),
    ensures
        place < items@.len(),
        place == smallest(views(items@)),
        forall|i: int|
            0 <= i < items@.len() ==> items@[place as int].size <= (#[trigger] items@[i]).size,
{
    let last: usize = items.len() - 1;
    let mut place: usize = last;
    while place > 0 && items[place - 1].size == items[last].size
        invariant
            place <= last,
            last == items@.len() - 1,
            forall|i: int| place <= i < items@.len() ==> (#[trigger] items@[i]).size
                == items@[last as int].size,
        decreases place,
    {
        place = place - 1;
    }
    proof {
        lemma_smallest_place(views(items@), place as int);
        lemma_smallest(views(items@));
        assert forall|i: int| 0 <= i < items@.len() implies items@[place as int].size <= (
        #[trigger] items@[i]).size by {
            assert(!item_less(views(items@)[i], views(items@)[place as int]));
        }
    }
    place
}

/// Puts an entry into a ranking.
pub fn insert(items: &mut Vec<HeapItem>, item: HeapItem)
    ensures
        views(final(items)@) == ranked_insert(views(old(items)@), item@),
        final(items)@.to_multiset() == old(items)@.to_multiset().insert(item),
{
    let mut place: usize = items.len();
    while place > 0 && above(&item, &items[place - 1])
        invariant
            place <= items@.len(),
            items@ == old(items)@,
            forall|i: int| place <= i < items@.len() ==> ranks_before(
                item@,
                #[trigger] views(items@)[i],
            ),
        decreases place,
    {
        place = place - 1;
    }
    let ghost x = item@;
    items.insert(place, item);
    proof {
        vstd::seq_lib::to_multiset_insert(old(items)@, place as int, item);
        lemma_insert_place(views(old(items)@), x, place as int);
        assert(views(items@) =~= views(old(items)@).insert(place as int, x));
    }
}

/// Whether `a` is listed above `b`.
fn above(a: &HeapItem, b: &HeapItem) -> (r: bool)
    ensures
        r == ranks_before(a@, b@),
{
    if a.size != b.size {
        a.size > b.size
    } else {
        proof {
            lemma_text_total(a@.path, b@.path);
        }
        match a.cmp(b) {
            Ordering::Less => true,
            _ => false,
        }
    }
}

} // verus!
