//! The deterministic order of the sorted construction mode: entries by
//! identifier, byte by byte, equal identifiers in the order given. The
//! order is that of a merge sort that halves the entries.

use vstd::prelude::*;
use vstd::utf8::encode_utf8;
use crate::entry::{Entry, EntryView};
use crate::tree_model::balance_total;

verus! {

/// Whether `a` comes no later than `b` in the lexicographic order of bytes,
/// looking from position `from` on.
pub open spec fn bytes_le_from(a: Seq<u8>, b: Seq<u8>, from: int) -> bool
    decreases a.len() - from,
{
    if from >= a.len() {
        true
    } else if from >= b.len() {
        false
    } else if a[from] != b[from] {
        a[from] < b[from]
    } else {
        bytes_le_from(a, b, from + 1)
    }
}

/// Whether entry `a` may stand before entry `b`: its identifier comes no
/// later in the lexicographic order of bytes.
pub open spec fn key_le(a: EntryView, b: EntryView) -> bool {
    bytes_le_from(encode_utf8(a.id), encode_utf8(b.id), 0)
}

/// Two sequences merged from their ends: the last entry is the last of
/// `right` where the last of `left` may stand before it, else the last of
/// `left`; so entries of one identifier keep `left` before `right`.
pub open spec fn merged(left: Seq<EntryView>, right: Seq<EntryView>) -> Seq<EntryView>
    decreases left.len() + right.len(),
{
    if left.len() == 0 {
        right
    } else if right.len() == 0 {
        left
    } else if key_le(left.last(), right.last()) {
        merged(left, right.drop_last()).push(right.last())
    } else {
        merged(left.drop_last(), right).push(left.last())
    }
}

/// The entries in the order of the sorted mode: each half in that order,
/// and the two merged.
pub open spec fn sorted_entries(entries: Seq<EntryView>) -> Seq<EntryView>
    decreases entries.len(),
{
    if entries.len() <= 1 {
        entries
    } else {
        let half = (entries.len() / 2) as int;
        merged(
            sorted_entries(entries.subrange(0, half)),
            sorted_entries(entries.subrange(half, entries.len() as int)),
        )
    }
}

/// The values of a sequence of entries.
pub open spec fn views(entries: Seq<Entry>) -> Seq<EntryView> {
    Seq::new(entries.len(), |i: int| entries[i]@)
}

/// Merging keeps every entry of both sequences, each as often as it
/// stands in them.
pub proof fn lemma_merged_is_union(left: Seq<EntryView>, right: Seq<EntryView>)
    ensures
        merged(left, right).to_multiset() == left.to_multiset().add(right.to_multiset()),
        merged(left, right).len() == left.len() + right.len(),
    decreases left.len() + right.len(),
{
    broadcast use vstd::seq_lib::group_to_multiset_ensures;
    broadcast use vstd::multiset::group_multiset_axioms;

    if left.len() == 0 {
        assert(left.to_multiset() =~= vstd::multiset::Multiset::<EntryView>::empty());
        assert(right.to_multiset() =~= left.to_multiset().add(right.to_multiset()));
    } else if right.len() == 0 {
        assert(right.to_multiset() =~= vstd::multiset::Multiset::<EntryView>::empty());
        assert(left.to_multiset() =~= left.to_multiset().add(right.to_multiset()));
    } else if key_le(left.last(), right.last()) {
        let front = right.drop_last();
        lemma_merged_is_union(left, front);
        assert(right =~= front.push(right.last()));
        assert(left.to_multiset().add(front.to_multiset()).insert(right.last())
            =~= left.to_multiset().add(front.to_multiset().insert(right.last())));
    } else {
        let front = left.drop_last();
        lemma_merged_is_union(front, right);
        assert(left =~= front.push(left.last()));
        assert(front.to_multiset().add(right.to_multiset()).insert(left.last())
            =~= front.to_multiset().insert(left.last()).add(right.to_multiset()));
    }
}

/// The sorted order holds the same entries, each as often as it was given.
pub proof fn lemma_sorted_is_permutation(entries: Seq<EntryView>)
    ensures
        sorted_entries(entries).to_multiset() == entries.to_multiset(),
        sorted_entries(entries).len() == entries.len(),
    decreases entries.len(),
{
    if entries.len() > 1 {
        let half = (entries.len() / 2) as int;
        let left = entries.subrange(0, half);
        let right = entries.subrange(half, entries.len() as int);
        lemma_sorted_is_permutation(left);
        lemma_sorted_is_permutation(right);
        lemma_merged_is_union(sorted_entries(left), sorted_entries(right));
        vstd::seq_lib::lemma_multiset_commutative(left, right);
        assert(entries =~= left + right);
    }
}

/// Every entry of the sorted order is one of the entries given.
pub proof fn lemma_sorted_members(entries: Seq<EntryView>, i: int)
    requires
        0 <= i < sorted_entries(entries).len(),
    ensures
        entries.contains(sorted_entries(entries)[i]),
{
    broadcast use vstd::seq_lib::group_to_multiset_ensures;

    lemma_sorted_is_permutation(entries);
    let sorted = sorted_entries(entries);
    assert(sorted.contains(sorted[i]));
    assert(sorted.to_multiset().count(sorted[i]) > 0);
}

/// The total of an asset over two sequences, one behind the other, is the
/// sum of their totals.
pub proof fn lemma_total_of_concat(left: Seq<EntryView>, right: Seq<EntryView>, asset: int)
    ensures
        balance_total(left + right, asset) == balance_total(left, asset) + balance_total(
            right,
            asset,
        ),
    decreases right.len(),
{
    if right.len() == 0 {
        assert(left + right =~= left);
    } else {
        lemma_total_of_concat(left, right.drop_last(), asset);
        assert((left + right).drop_last() =~= left + right.drop_last());
    }
}

/// Merging keeps the total of each asset.
pub proof fn lemma_merged_total(left: Seq<EntryView>, right: Seq<EntryView>, asset: int)
    ensures
        balance_total(merged(left, right), asset) == balance_total(left, asset) + balance_total(
            right,
            asset,
        ),
    decreases left.len() + right.len(),
{
    if left.len() == 0 || right.len() == 0 {
    } else if key_le(left.last(), right.last()) {
        lemma_merged_total(left, right.drop_last(), asset);
        let front = merged(left, right.drop_last());
        assert(front.push(right.last()).drop_last() =~= front);
    } else {
        lemma_merged_total(left.drop_last(), right, asset);
        let front = merged(left.drop_last(), right);
        assert(front.push(left.last()).drop_last() =~= front);
    }
}

/// The totals of the sorted order are the totals of the entries given.
pub proof fn lemma_sorted_total(entries: Seq<EntryView>, asset: int)
    ensures
        balance_total(sorted_entries(entries), asset) == balance_total(entries, asset),
    decreases entries.len(),
{
    if entries.len() > 1 {
        let half = (entries.len() / 2) as int;
        let left = entries.subrange(0, half);
        let right = entries.subrange(half, entries.len() as int);
        lemma_sorted_total(left, asset);
        lemma_sorted_total(right, asset);
        lemma_merged_total(sorted_entries(left), sorted_entries(right), asset);
        lemma_total_of_concat(left, right, asset);
        assert(entries =~= left + right);
    }
}

/// Of two byte strings, one comes no later than the other.
pub proof fn lemma_bytes_le_total(a: Seq<u8>, b: Seq<u8>, from: int)
    requires
        0 <= from,
    ensures
        bytes_le_from(a, b, from) || bytes_le_from(b, a, from),
    decreases a.len() - from,
{
    if from < a.len() && from < b.len() && a[from] == b[from] {
        lemma_bytes_le_total(a, b, from + 1);
    }
}

/// What comes no later than a byte string comes no later than any that
/// this one comes no later than.
pub proof fn lemma_bytes_le_transitive(a: Seq<u8>, b: Seq<u8>, c: Seq<u8>, from: int)
    requires
        0 <= from,
        bytes_le_from(a, b, from),
        bytes_le_from(b, c, from),
    ensures
        bytes_le_from(a, c, from),
    decreases a.len() - from,
{
    if from < a.len() && a[from] == b[from] && b[from] == c[from] {
        lemma_bytes_le_transitive(a, b, c, from + 1);
    }
}

/// Every entry may stand before every entry behind it.
pub open spec fn ordered(entries: Seq<EntryView>) -> bool {
    forall|i: int, j: int|
        0 <= i < j < entries.len() ==> key_le(#[trigger] entries[i], #[trigger] entries[j])
}

/// The last entry of an order may stand behind every entry of it.
pub proof fn lemma_last_is_greatest(entries: Seq<EntryView>, bound: EntryView, k: int)
    requires
        ordered(entries),
        0 <= k < entries.len(),
        key_le(entries.last(), bound),
    ensures
        key_le(entries[k], bound),
{
    if k < entries.len() - 1 {
        assert(key_le(entries[k], entries[entries.len() - 1]));
        lemma_bytes_le_transitive(
            encode_utf8(entries[k].id),
            encode_utf8(entries.last().id),
            encode_utf8(bound.id),
            0,
        );
    }
}

/// A part of an order is an order.
pub proof fn lemma_front_is_ordered(entries: Seq<EntryView>)
    requires
        ordered(entries),
        entries.len() > 0,
    ensures
        ordered(entries.drop_last()),
{
    let front = entries.drop_last();
    assert forall|i: int, j: int| 0 <= i < j < front.len() implies key_le(
        #[trigger] front[i],
        #[trigger] front[j],
    ) by {
        assert(key_le(entries[i], entries[j]));
    }
}

/// Behind what is merged from two orders, an entry that may stand behind
/// the last of both makes an order again.
pub proof fn lemma_push_keeps_order(
    left: Seq<EntryView>,
    right: Seq<EntryView>,
    entry: EntryView,
)
    requires
        ordered(left),
        ordered(right),
        ordered(merged(left, right)),
        left.len() > 0 ==> key_le(left.last(), entry),
        right.len() > 0 ==> key_le(right.last(), entry),
    ensures
        ordered(merged(left, right).push(entry)),
{
    broadcast use vstd::seq_lib::group_to_multiset_ensures;
    broadcast use vstd::multiset::group_multiset_axioms;

    let front = merged(left, right);
    let result = front.push(entry);
    lemma_merged_is_union(left, right);
    assert forall|i: int, j: int| 0 <= i < j < result.len() implies key_le(
        #[trigger] result[i],
        #[trigger] result[j],
    ) by {
        if j < front.len() {
            assert(key_le(front[i], front[j]));
        } else {
            assert(front.contains(front[i]));
            assert(front.to_multiset().count(front[i]) > 0);
            if left.to_multiset().count(front[i]) > 0 {
                let k = choose|k: int| 0 <= k < left.len() && left[k] == front[i];
                lemma_last_is_greatest(left, entry, k);
            } else {
                assert(right.to_multiset().count(front[i]) > 0);
                let k = choose|k: int| 0 <= k < right.len() && right[k] == front[i];
                lemma_last_is_greatest(right, entry, k);
            }
        }
    }
}

/// Two orders merge into an order.
pub proof fn lemma_merged_is_ordered(left: Seq<EntryView>, right: Seq<EntryView>)
    requires
        ordered(left),
        ordered(right),
    ensures
        ordered(merged(left, right)),
    decreases left.len() + right.len(),
{
    if left.len() == 0 || right.len() == 0 {
    } else if key_le(left.last(), right.last()) {
        let front = right.drop_last();
        lemma_front_is_ordered(right);
        lemma_merged_is_ordered(left, front);
        if front.len() > 0 {
            assert(key_le(right[front.len() - 1], right[right.len() - 1]));
        }
        lemma_push_keeps_order(left, front, right.last());
    } else {
        let front = left.drop_last();
        lemma_front_is_ordered(left);
        lemma_merged_is_ordered(front, right);
        lemma_bytes_le_total(encode_utf8(left.last().id), encode_utf8(right.last().id), 0);
        if front.len() > 0 {
            assert(key_le(left[front.len() - 1], left[left.len() - 1]));
        }
        lemma_push_keeps_order(front, right, left.last());
    }
}

/// The sorted order is an order: every entry may stand before every entry
/// behind it.
pub proof fn lemma_sorted_is_ordered(entries: Seq<EntryView>)
    ensures
        ordered(sorted_entries(entries)),
    decreases entries.len(),
{
    if entries.len() > 1 {
        let half = (entries.len() / 2) as int;
        let left = entries.subrange(0, half);
        let right = entries.subrange(half, entries.len() as int);
        lemma_sorted_is_ordered(left);
        lemma_sorted_is_ordered(right);
        lemma_merged_is_ordered(sorted_entries(left), sorted_entries(right));
    }
}

/// Whether identifier `a` comes no later than `b`, byte by byte.
pub fn id_le(a: &str, b: &str) -> (le: bool)
    ensures
        le == bytes_le_from(encode_utf8(a@), encode_utf8(b@), 0),
{
    let x = a.as_bytes();
    let y = b.as_bytes();
    let mut i: usize = 0;
    loop
        invariant
            x@ == encode_utf8(a@),
            y@ == encode_utf8(b@),
            i <= x@.len(),
            i <= y@.len(),
            bytes_le_from(x@, y@, 0) == bytes_le_from(x@, y@, i as int),
        decreases x@.len() - i,
    {
        if i >= x.len() {
            return true;
        }
        if i >= y.len() {
            return false;
        }
        if x[i] != y[i] {
            return x[i] < y[i];
        }
        i = i + 1;
    }
}

/// Merges two sequences of entries from their ends.
pub fn merge_entries(left: Vec<Entry>, right: Vec<Entry>) -> (result: Vec<Entry>)
    ensures
        views(result@) == merged(views(left@), views(right@)),
{
    let ghost target = merged(views(left@), views(right@));
    let mut left = left;
    let mut right = right;
    // Holds the merged entries from the last to the first.
    let mut stack: Vec<Entry> = Vec::new();
    proof {
        assert(views(stack@).reverse() =~= Seq::<EntryView>::empty());
        assert(target + Seq::<EntryView>::empty() =~= target);
    }
    while left.len() > 0 || right.len() > 0
        invariant
            target == merged(views(left@), views(right@)) + views(stack@).reverse(),
        decreases left@.len() + right@.len(),
    {
        let ghost l = views(left@);
        let ghost r = views(right@);
        let ghost s = views(stack@);
        let from_right = if left.len() == 0 {
            true
        } else if right.len() == 0 {
            false
        } else {
            id_le(left[left.len() - 1].id.as_str(), right[right.len() - 1].id.as_str())
        };
        let entry = if from_right {
            right.pop().unwrap()
        } else {
            left.pop().unwrap()
        };
        proof {
            if from_right {
                assert(entry@ == r.last());
                assert(views(right@) =~= r.drop_last());
                assert(merged(l, r) == merged(l, r.drop_last()).push(r.last())) by {
                    if l.len() == 0 {
                        assert(r =~= r.drop_last().push(r.last()));
                    }
                }
            } else {
                assert(entry@ == l.last());
                assert(views(left@) =~= l.drop_last());
                assert(merged(l, r) == merged(l.drop_last(), r).push(l.last())) by {
                    if r.len() == 0 {
                        assert(l =~= l.drop_last().push(l.last()));
                    }
                }
            }
            assert(views(stack@.push(entry)) =~= s.push(entry@));
            assert(s.push(entry@).reverse() =~= seq![entry@] + s.reverse());
            let rest = merged(views(left@), views(right@));
            assert(rest.push(entry@) + s.reverse() =~= rest + (seq![entry@] + s.reverse()));
        }
        stack.push(entry);
    }
    let mut result: Vec<Entry> = Vec::new();
    proof {
        assert(merged(views(left@), views(right@)) =~= Seq::<EntryView>::empty());
        assert(views(result@) + views(stack@).reverse() =~= target);
    }
    while stack.len() > 0
        invariant
            target == views(result@) + views(stack@).reverse(),
        decreases stack@.len(),
    {
        let ghost s = views(stack@);
        let ghost done = views(result@);
        let entry = stack.pop().unwrap();
        proof {
            assert(views(stack@) =~= s.drop_last());
            assert(s.reverse() =~= seq![entry@] + s.drop_last().reverse());
            assert(views(result@.push(entry)) =~= done.push(entry@));
            assert(done.push(entry@) + s.drop_last().reverse() =~= done + (seq![entry@]
                + s.drop_last().reverse()));
        }
        result.push(entry);
    }
    proof {
        assert(views(stack@).reverse() =~= Seq::<EntryView>::empty());
        assert(views(result@) + Seq::<EntryView>::empty() =~= views(result@));
    }
    result
}

/// Orders the entries by identifier; entries with one identifier keep the
/// order in which they were given.
pub fn sort_entries(entries: Vec<Entry>) -> (sorted: Vec<Entry>)
    ensures
        sorted.deep_view() == sorted_entries(entries.deep_view()),
    decreases entries@.len(),
{
    let ghost given = views(entries@);
    proof {
        assert(entries.deep_view() =~= given);
    }
    if entries.len() <= 1 {
        return entries;
    }
    let mut left = entries;
    let half = left.len() / 2;
    let right = left.split_off(half);
    proof {
        assert(views(left@) =~= given.subrange(0, half as int));
        assert(views(right@) =~= given.subrange(half as int, given.len() as int));
    }
    let left_sorted = sort_entries(left);
    let right_sorted = sort_entries(right);
    proof {
        assert(left_sorted.deep_view() =~= views(left_sorted@));
        assert(right_sorted.deep_view() =~= views(right_sorted@));
        assert(left.deep_view() =~= views(left@));
        assert(right.deep_view() =~= views(right@));
    }
    let sorted = merge_entries(left_sorted, right_sorted);
    proof {
        assert(sorted.deep_view() =~= views(sorted@));
    }
    sorted
}

} // verus!
