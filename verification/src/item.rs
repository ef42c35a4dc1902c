//! The entries of a scan and the order in which they compete.

use std::cmp::Ordering;
use vstd::prelude::*;

verus! {

/// What an entry of a scan says, free of how its path is stored.
pub struct ItemView {
    pub size: u64,
    pub path: Seq<char>,
    pub modified: Option<i64>,
}

/// An entry that competes for a place among the largest ones.
pub struct HeapItem {
    pub size: u64,
    pub path: String,
    pub modified: Option<i64>,
}

/// An entry of the finished list.
#[derive(Debug)]
pub struct Item {
    pub size: u64,
    pub path: String,
    pub modified: Option<i64>,
}

impl View for HeapItem {
    type V = ItemView;

    open spec fn view(&self) -> ItemView {
        ItemView { size: self.size, path: self.path@, modified: self.modified }
    }
}

impl View for Item {
    type V = ItemView;

    open spec fn view(&self) -> ItemView {
        ItemView { size: self.size, path: self.path@, modified: self.modified }
    }
}

/// Text `a` comes before text `b`: at the first place where they differ `a` has the lower code
/// point, or `a` is a proper prefix of `b`.
pub open spec fn text_less(a: Seq<char>, b: Seq<char>) -> bool
    decreases a.len(),
{
    if b.len() == 0 {
        false
    } else if a.len() == 0 {
        true
    } else if a[0] != b[0] {
        a[0] < b[0]
    } else {
        text_less(a.drop_first(), b.drop_first())
    }
}

/// Two entries are the same one when size and path agree; the modification time is left out.
pub open spec fn same_entry(a: ItemView, b: ItemView) -> bool {
    a.size == b.size && a.path == b.path
}

/// Entry `a` is smaller than entry `b`: by size, and among equal sizes by path.
pub open spec fn item_less(a: ItemView, b: ItemView) -> bool {
    a.size < b.size || (a.size == b.size && text_less(a.path, b.path))
}

/// How two texts compare.
pub open spec fn text_order(a: Seq<char>, b: Seq<char>) -> Ordering {
    if a == b {
        Ordering::Equal
    } else if text_less(a, b) {
        Ordering::Less
    } else {
        Ordering::Greater
    }
}

/// How two entries compare.
pub open spec fn item_order(a: ItemView, b: ItemView) -> Ordering {
    if same_entry(a, b) {
        Ordering::Equal
    } else if item_less(a, b) {
        Ordering::Less
    } else {
        Ordering::Greater
    }
}

/// Of two different texts exactly one comes first.
pub proof fn lemma_text_total(a: Seq<char>, b: Seq<char>)
    ensures
        a == b ==> !text_less(a, b) && !text_less(b, a),
        a != b ==> text_less(a, b) != text_less(b, a),
    decreases a.len(),
{
    if a.len() > 0 && b.len() > 0 && a[0] == b[0] {
        lemma_text_total(a.drop_first(), b.drop_first());
        if a.drop_first() == b.drop_first() {
            assert(a =~= seq![a[0]] + a.drop_first());
            assert(b =~= seq![b[0]] + b.drop_first());
        }
    } else if a.len() == 0 && b.len() == 0 {
        assert(a =~= b);
    }
}

/// The order of texts is transitive.
pub proof fn lemma_text_transitive(a: Seq<char>, b: Seq<char>, c: Seq<char>)
    requires
        text_less(a, b),
        text_less(b, c),
    ensures
        text_less(a, c),
    decreases a.len(),
{
    if a.len() > 0 && a[0] == b[0] && b[0] == c[0] {
        lemma_text_transitive(a.drop_first(), b.drop_first(), c.drop_first());
    }
}

/// Texts are ordered by the first place at which they differ: `a` comes before `b` exactly if, after
/// some beginning that they share, `a` ends and `b` does not, or `a` goes on with the lower code
/// point.
pub proof fn law_text_order(a: Seq<char>, b: Seq<char>)
    ensures
        text_less(a, b) <==> exists|i: int|
            #![trigger a.take(i)]
            0 <= i <= a.len() && i < b.len() && a.take(i) == b.take(i) && (i == a.len() || a[i]
                < b[i]),
        text_order(a, b) == Ordering::Equal <==> a == b,
        text_order(a, b) == Ordering::Less <==> a != b && text_less(a, b),
        text_order(a, b) == Ordering::Greater <==> a != b && !text_less(a, b),
    decreases a.len(),
{
    if a.len() > 0 && b.len() > 0 && a[0] == b[0] {
        let x = a.drop_first();
        let y = b.drop_first();
        law_text_order(x, y);
        if text_less(a, b) {
            let j = choose|j: int|
                #![trigger x.take(j)]
                0 <= j <= x.len() && j < y.len() && x.take(j) == y.take(j) && (j == x.len() || x[j]
                    < y[j]);
            assert forall|k: int| 0 <= k < j + 1 implies a[k] == b[k] by {
                if k > 0 {
                    assert(x.take(j)[k - 1] == y.take(j)[k - 1]);
                }
            }
            assert(a.take(j + 1) =~= b.take(j + 1));
        }
        assert forall|i: int|
            #![trigger a.take(i)]
            0 <= i <= a.len() && i < b.len() && a.take(i) == b.take(i) && (i == a.len() || a[i]
                < b[i]) implies text_less(a, b) by {
            assert forall|k: int| 0 <= k < i - 1 implies x[k] == y[k] by {
                assert(a.take(i)[k + 1] == b.take(i)[k + 1]);
            }
            assert(x.take(i - 1) =~= y.take(i - 1));
        }
    } else if a.len() > 0 && b.len() > 0 {
        assert(a.take(0) =~= b.take(0));
        assert forall|i: int| #![trigger a.take(i)] 1 <= i <= a.len() && i < b.len() implies a.take(i)
            != b.take(i) by {
            assert(a.take(i)[0] != b.take(i)[0]);
        }
    } else if b.len() > 0 {
        assert(a.take(0) =~= b.take(0));
    }
}

/// What an entry says is what it is stored as.
pub proof fn law_entries_say_what_they_hold(entry: HeapItem, item: Item)
    ensures
        entry@.size == entry.size,
        entry@.path == entry.path@,
        entry@.modified == entry.modified,
        item@.size == item.size,
        item@.path == item.path@,
        item@.modified == item.modified,
{
}

/// Entries are ordered by size first, and by path where the sizes agree.
pub proof fn law_entry_order(a: ItemView, b: ItemView)
    ensures
        a.size < b.size ==> item_less(a, b) && item_order(a, b) == Ordering::Less,
        a.size > b.size ==> !item_less(a, b) && item_order(a, b) == Ordering::Greater,
        a.size == b.size ==> item_less(a, b) == text_less(a.path, b.path),
        a.size == b.size ==> item_order(a, b) == text_order(a.path, b.path),
        same_entry(a, b) <==> a.size == b.size && a.path == b.path,
{
    lemma_text_total(a.path, b.path);
}

/// Compares two texts by code points.
pub fn compare_text(a: &str, b: &str) -> (order: Ordering)
    ensures
        order == text_order(a@, b@),
        order == Ordering::Equal <==> a@ == b@,
{
    let mut left = a.chars();
    let mut right = b.chars();
    loop
        invariant
            text_order(a@, b@) == text_order(vstd::std_specs::iter::IteratorSpec::remaining(&left), vstd::std_specs::iter::IteratorSpec::remaining(&right)),
            vstd::std_specs::iter::IteratorSpec::obeys_prophetic_iter_laws(&left),
            vstd::std_specs::iter::IteratorSpec::obeys_prophetic_iter_laws(&right),
            vstd::std_specs::iter::IteratorSpec::decrease(&left) is Some,
        decreases vstd::std_specs::iter::IteratorSpec::decrease(&left)->0,
    {
        let ghost l = vstd::std_specs::iter::IteratorSpec::remaining(&left);
        let ghost r = vstd::std_specs::iter::IteratorSpec::remaining(&right);
        let x = left.next();
        let y = right.next();
        proof {
            lemma_text_total(l, r);
            lemma_text_total(vstd::std_specs::iter::IteratorSpec::remaining(&left), vstd::std_specs::iter::IteratorSpec::remaining(&right));
        }
        match (x, y) {
            (None, None) => {
                return Ordering::Equal;
            },
            (None, Some(_)) => {
                return Ordering::Less;
            },
            (Some(_), None) => {
                return Ordering::Greater;
            },
            (Some(c), Some(d)) => {
                if c < d {
                    return Ordering::Less;
                }
                if d < c {
                    return Ordering::Greater;
                }
                proof {
                    assert(l =~= seq![l[0]] + l.drop_first());
                    assert(r =~= seq![r[0]] + r.drop_first());
                }
            },
        }
    }
}

/// The order of entries is irreflexive, and of two entries that are not the same one exactly one
/// is smaller.
pub proof fn lemma_item_total(a: ItemView, b: ItemView)
    ensures
        same_entry(a, b) ==> !item_less(a, b) && !item_less(b, a),
        !same_entry(a, b) ==> item_less(a, b) != item_less(b, a),
{
    lemma_text_total(a.path, b.path);
}

/// The order of entries is transitive.
pub proof fn lemma_item_transitive(a: ItemView, b: ItemView, c: ItemView)
    requires
        item_less(a, b),
        item_less(b, c),
    ensures
        item_less(a, c),
{
    if a.size == b.size && b.size == c.size {
        lemma_text_transitive(a.path, b.path, c.path);
    }
}

/// Order and equality of entries agree, and neither looks at the modification time: two entries
/// compare as equal exactly if they are the same one, and turning a comparison round turns its
/// outcome round.
pub proof fn law_order_agrees_with_equality(a: ItemView, b: ItemView, modified: Option<i64>)
    ensures
        item_order(a, b) == Ordering::Equal <==> same_entry(a, b),
        item_order(a, b) == Ordering::Less <==> item_order(b, a) == Ordering::Greater,
        item_order(ItemView { modified, ..a }, b) == item_order(a, b),
        same_entry(ItemView { modified, ..a }, b) == same_entry(a, b),
{
    lemma_item_total(a, b);
}

impl HeapItem {
    /// Orders two entries by size and, where the sizes agree, by path.
    pub fn cmp(&self, other: &HeapItem) -> (order: Ordering)
        ensures
            order == item_order(self@, other@),
            self.size < other.size ==> order == Ordering::Less,
            self.size > other.size ==> order == Ordering::Greater,
            self.size == other.size ==> order == text_order(self.path@, other.path@),
    {
        if self.size < other.size {
            Ordering::Less
        } else if self.size > other.size {
            Ordering::Greater
        } else {
            compare_text(self.path.as_str(), other.path.as_str())
        }
    }

    /// The entry as it stands in the finished list.
    pub fn into_item(self) -> (item: Item)
        ensures
            item@ == self@,
            item.size == self.size,
            item.path == self.path,
            item.modified == self.modified,
    {
        Item { size: self.size, path: self.path, modified: self.modified }
    }
}

/// `==` and `<` on stored entries go by size and path alone.
pub proof fn law_operators(a: HeapItem, b: HeapItem)
    ensures
        vstd::std_specs::cmp::PartialEqSpec::eq_spec(&a, &b) == (a.size == b.size && a.path@
            == b.path@),
        a.size < b.size ==> vstd::std_specs::cmp::PartialOrdSpec::partial_cmp_spec(&a, &b) == Some(
            Ordering::Less,
        ),
        a.size > b.size ==> vstd::std_specs::cmp::PartialOrdSpec::partial_cmp_spec(&a, &b) == Some(
            Ordering::Greater,
        ),
        a.size == b.size ==> vstd::std_specs::cmp::PartialOrdSpec::partial_cmp_spec(&a, &b) == Some(
            text_order(a.path@, b.path@),
        ),
{
    law_entry_order(a@, b@);
}

impl Clone for Item {
    fn clone(&self) -> (copy: Item)
        ensures
            copy == *self,
    {
        Item { size: self.size, path: self.path.clone(), modified: self.modified }
    }
}

impl PartialEq for HeapItem {
    fn eq(&self, other: &Self) -> (same: bool) {
        self.size == other.size && self.path == other.path
    }
}

impl vstd::std_specs::cmp::PartialEqSpecImpl for HeapItem {
    open spec fn obeys_eq_spec() -> bool {
        true
    }

    open spec fn eq_spec(&self, other: &Self) -> bool {
        same_entry(self@, other@)
    }
}

impl Eq for HeapItem {

}

impl PartialOrd for HeapItem {
    fn partial_cmp(&self, other: &Self) -> (order: Option<Ordering>) {
        Some(self.cmp(other))
    }
}

impl vstd::std_specs::cmp::PartialOrdSpecImpl for HeapItem {
    open spec fn obeys_partial_cmp_spec() -> bool {
        true
    }

    open spec fn partial_cmp_spec(&self, other: &Self) -> Option<Ordering> {
        Some(item_order(self@, other@))
    }
}

} // verus!
