//! What holds of the tree however it was filled.
//!
//! The statements here are about [`TreeNode::with`], which is what
//! [`TreeNode::insert`] does to a subtree, and about [`grown`], the tree
//! after a whole sequence of records. As long as every measure is a number
//! the tree is a search tree: its traversal ascends strictly, a record is
//! set aside exactly when the tree already holds its equal, and a new
//! record lands in the traversal where the order puts it. A measure that is
//! no number is `Greater` than everything and than itself, so such a record
//! always goes to the right and the statements leave it out.
use vstd::prelude::*;
use vstd::seq_lib::seq_to_set_is_finite;
use vstd::set_lib::lemma_len_subset;
use crate::record::{
    lemma_key_less_asymmetric, lemma_key_less_transitive, lemma_order_follows_keys,
    lemma_same_key_stands_alike, GameData,
};
use crate::text::Order;
use crate::tree::{
    all_after, all_before, all_numbers, ascending, holds_key, link_diverts, link_in_order,
    link_ordered, link_slot, link_with, TreeNode,
};

verus! {

/// What sending a record down does to the traversal. A duplicate changes
/// nothing, and its slot is the place of the record it equals. Any other
/// record is added to the traversal at its slot, and all else stays as it
/// was and where it was.
pub proof fn lemma_with_traversal(node: TreeNode, record: GameData)
    ensures
        0 <= node.slot(record) <= node.in_order().len(),
        node.diverts(record) ==> node.with(record) == node && node.slot(record)
            < node.in_order().len() && record.order_to(node.in_order()[node.slot(record)])
            == Order::Equal,
        !node.diverts(record) ==> node.with(record).in_order() == node.in_order().insert(
            node.slot(record),
            record,
        ),
    decreases node,
{
    let left = link_in_order(node.left);
    let right = link_in_order(node.right);
    let middle = seq![node.data];
    match record.order_to(node.data) {
        Order::Equal => {},
        Order::Less => {
            lemma_link_with_traversal(node.left, record);
            if !node.diverts(record) {
                let k = link_slot(node.left, record);
                assert(left.insert(k, record) + middle + right =~= (left + middle + right).insert(
                    k,
                    record,
                ));
            }
        },
        Order::Greater => {
            lemma_link_with_traversal(node.right, record);
            if !node.diverts(record) {
                let k = link_slot(node.right, record);
                assert(left + middle + right.insert(k, record) =~= (left + middle + right).insert(
                    left.len() + 1 + k,
                    record,
                ));
            }
        },
    }
}

/// [`lemma_with_traversal`] for a subtree that may be absent.
pub proof fn lemma_link_with_traversal(link: Option<Box<TreeNode>>, record: GameData)
    ensures
        0 <= link_slot(link, record) <= link_in_order(link).len(),
        link_diverts(link, record) ==> link_with(link, record) == link && link_slot(link, record)
            < link_in_order(link).len() && record.order_to(
            link_in_order(link)[link_slot(link, record)],
        ) == Order::Equal,
        !link_diverts(link, record) ==> link_in_order(link_with(link, record)) == link_in_order(
            link,
        ).insert(link_slot(link, record), record),
    decreases link,
{
    match link {
        None => {
            assert(TreeNode::leaf(record).in_order() =~= Seq::<GameData>::empty().insert(
                0,
                record,
            ));
        },
        Some(node) => {
            lemma_with_traversal(*node, record);
        },
    }
}

/// In a search tree the slot of a number divides the traversal: what stands
/// before the slot comes before the record, and what stands after it (after
/// the equal record, for a duplicate) comes after the record.
pub proof fn lemma_slot_divides(node: TreeNode, record: GameData)
    requires
        node.ordered(),
        record.is_number(),
    ensures
        all_before(node.in_order().take(node.slot(record)), record),
        all_after(
            node.in_order().skip(
                node.slot(record) + if node.diverts(record) {
                    1int
                } else {
                    0int
                },
            ),
            record,
        ),
    decreases node,
{
    let left = link_in_order(node.left);
    let right = link_in_order(node.right);
    let all = node.in_order();
    let slot = node.slot(record);
    let past = slot + if node.diverts(record) {
        1int
    } else {
        0int
    };
    lemma_with_traversal(node, record);
    lemma_order_follows_keys(record, node.data);
    lemma_link_ordered_numbers(node.left);
    lemma_link_ordered_numbers(node.right);
    match record.order_to(node.data) {
        Order::Equal => {
            assert forall|i: int| 0 <= i < all.take(slot).len() implies (#[trigger] all.take(
                slot,
            )[i]).key_less(record) by {
                assert(all.take(slot)[i] == left[i]);
                lemma_same_key_stands_alike(record, node.data, left[i]);
            }
            assert forall|i: int| 0 <= i < all.skip(past).len() implies record.key_less(
                #[trigger] all.skip(past)[i],
            ) by {
                assert(all.skip(past)[i] == right[i]);
                lemma_same_key_stands_alike(record, node.data, right[i]);
            }
        },
        Order::Less => {
            lemma_link_slot_divides(node.left, record);
            lemma_link_with_traversal(node.left, record);
            assert forall|i: int| 0 <= i < all.take(slot).len() implies (#[trigger] all.take(
                slot,
            )[i]).key_less(record) by {
                assert(all.take(slot)[i] == left.take(slot)[i]);
            }
            assert forall|i: int| 0 <= i < all.skip(past).len() implies record.key_less(
                #[trigger] all.skip(past)[i],
            ) by {
                let at = past + i;
                if at < left.len() {
                    assert(all.skip(past)[i] == left.skip(past)[i]);
                } else if at > left.len() {
                    assert(all.skip(past)[i] == right[at - left.len() - 1]);
                    lemma_key_less_transitive(record, node.data, right[at - left.len() - 1]);
                }
            }
        },
        Order::Greater => {
            lemma_link_slot_divides(node.right, record);
            lemma_link_with_traversal(node.right, record);
            let inner = link_slot(node.right, record);
            assert forall|i: int| 0 <= i < all.take(slot).len() implies (#[trigger] all.take(
                slot,
            )[i]).key_less(record) by {
                if i < left.len() {
                    assert(all.take(slot)[i] == left[i]);
                    lemma_key_less_transitive(left[i], node.data, record);
                } else if i > left.len() {
                    assert(all.take(slot)[i] == right.take(inner)[i - left.len() - 1]);
                }
            }
            assert forall|i: int| 0 <= i < all.skip(past).len() implies record.key_less(
                #[trigger] all.skip(past)[i],
            ) by {
                assert(all.skip(past)[i] == right.skip(past - left.len() - 1)[i]);
            }
        },
    }
}

/// [`lemma_slot_divides`] for a subtree that may be absent.
pub proof fn lemma_link_slot_divides(link: Option<Box<TreeNode>>, record: GameData)
    requires
        link_ordered(link),
        record.is_number(),
    ensures
        all_before(link_in_order(link).take(link_slot(link, record)), record),
        all_after(
            link_in_order(link).skip(
                link_slot(link, record) + if link_diverts(link, record) {
                    1int
                } else {
                    0int
                },
            ),
            record,
        ),
    decreases link,
{
    match link {
        None => {},
        Some(node) => {
            lemma_slot_divides(*node, record);
        },
    }
}

/// Every measure in a search tree is a number.
pub proof fn lemma_link_ordered_numbers(link: Option<Box<TreeNode>>)
    requires
        link_ordered(link),
    ensures
        all_numbers(link_in_order(link)),
    decreases link,
{
    match link {
        None => {},
        Some(node) => {
            lemma_link_ordered_numbers(node.left);
            lemma_link_ordered_numbers(node.right);
        },
    }
}

/// Sending a number down a search tree leaves a search tree.
pub proof fn lemma_with_keeps_order(node: TreeNode, record: GameData)
    requires
        node.ordered(),
        record.is_number(),
    ensures
        node.with(record).ordered(),
    decreases node,
{
    lemma_order_follows_keys(record, node.data);
    match record.order_to(node.data) {
        Order::Equal => {},
        Order::Less => {
            lemma_link_with_keeps_order(node.left, record);
            lemma_link_with_traversal(node.left, record);
            let before = link_in_order(node.left);
            let after = link_in_order(link_with(node.left, record));
            let k = link_slot(node.left, record);
            assert forall|i: int| 0 <= i < after.len() implies (#[trigger] after[i]).key_less(
                node.data,
            ) by {
                if !link_diverts(node.left, record) {
                    if i < k {
                        assert(after[i] == before[i]);
                    } else if i > k {
                        assert(after[i] == before[i - 1]);
                    }
                }
            }
        },
        Order::Greater => {
            lemma_link_with_keeps_order(node.right, record);
            lemma_link_with_traversal(node.right, record);
            let before = link_in_order(node.right);
            let after = link_in_order(link_with(node.right, record));
            let k = link_slot(node.right, record);
            assert forall|i: int| 0 <= i < after.len() implies node.data.key_less(
                #[trigger] after[i],
            ) by {
                if !link_diverts(node.right, record) {
                    if i < k {
                        assert(after[i] == before[i]);
                    } else if i > k {
                        assert(after[i] == before[i - 1]);
                    }
                }
            }
        },
    }
}

/// [`lemma_with_keeps_order`] for a subtree that may be absent.
pub proof fn lemma_link_with_keeps_order(link: Option<Box<TreeNode>>, record: GameData)
    requires
        link_ordered(link),
        record.is_number(),
    ensures
        link_ordered(link_with(link, record)),
    decreases link,
{
    match link {
        None => {
            assert(link_in_order(None) =~= Seq::<GameData>::empty());
        },
        Some(node) => {
            lemma_with_keeps_order(*node, record);
        },
    }
}

/// The traversal of a search tree ascends strictly: each record comes
/// before every later one, so no two of them agree on every level.
pub proof fn lemma_link_ordered_ascends(link: Option<Box<TreeNode>>)
    requires
        link_ordered(link),
    ensures
        ascending(link_in_order(link)),
    decreases link,
{
    match link {
        None => {},
        Some(node) => {
            lemma_link_ordered_ascends(node.left);
            lemma_link_ordered_ascends(node.right);
            let left = link_in_order(node.left);
            let right = link_in_order(node.right);
            let all = node.in_order();
            assert forall|i: int, j: int| 0 <= i < j < all.len() implies #[trigger] all[i].key_less(
                #[trigger] all[j],
            ) by {
                if j < left.len() {
                    assert(all[i] == left[i] && all[j] == left[j]);
                } else if j == left.len() {
                    assert(all[i] == left[i]);
                } else if i < left.len() {
                    assert(all[i] == left[i] && all[j] == right[j - left.len() - 1]);
                    lemma_key_less_transitive(left[i], node.data, right[j - left.len() - 1]);
                } else if i == left.len() {
                    assert(all[j] == right[j - left.len() - 1]);
                } else {
                    assert(all[i] == right[i - left.len() - 1]);
                    assert(all[j] == right[j - left.len() - 1]);
                }
            }
        },
    }
}

/// A search tree sets a number aside exactly when it holds a record that
/// agrees with it on every level, wherever in the tree that record is.
pub proof fn lemma_link_diverts_iff_held(link: Option<Box<TreeNode>>, record: GameData)
    requires
        link_ordered(link),
        record.is_number(),
    ensures
        link_diverts(link, record) == holds_key(link_in_order(link), record),
{
    let all = link_in_order(link);
    let slot = link_slot(link, record);
    lemma_link_with_traversal(link, record);
    lemma_link_slot_divides(link, record);
    lemma_link_ordered_numbers(link);
    if link_diverts(link, record) {
        lemma_order_follows_keys(record, all[slot]);
        assert(all[slot].same_key(record));
    } else {
        assert forall|i: int| 0 <= i < all.len() implies !(#[trigger] all[i]).same_key(record) by {
            if i < slot {
                assert(all.take(slot)[i] == all[i]);
                lemma_key_less_asymmetric(all[i], record);
            } else {
                assert(all.skip(slot)[i - slot] == all[i]);
                lemma_key_less_asymmetric(record, all[i]);
            }
        }
    }
}

/// The tree after the records were taken in one by one, the first of them
/// as the root.
pub open spec fn grown(records: Seq<GameData>) -> Option<Box<TreeNode>>
    decreases records.len(),
{
    if records.len() == 0 {
        None
    } else {
        link_with(grown(records.drop_last()), records.last())
    }
}

/// The duplicates after the records were taken in one by one: those that
/// met their equal, in the order in which they came.
pub open spec fn set_aside(records: Seq<GameData>) -> Seq<GameData>
    decreases records.len(),
{
    if records.len() == 0 {
        Seq::empty()
    } else if link_diverts(grown(records.drop_last()), records.last()) {
        set_aside(records.drop_last()).push(records.last())
    } else {
        set_aside(records.drop_last())
    }
}

/// Whatever numbers are taken in, and in whatever order, the result is a
/// search tree and its traversal ascends strictly.
pub proof fn lemma_grown_is_search_tree(records: Seq<GameData>)
    requires
        all_numbers(records),
    ensures
        link_ordered(grown(records)),
        ascending(link_in_order(grown(records))),
    decreases records.len(),
{
    if records.len() > 0 {
        lemma_grown_is_search_tree(records.drop_last());
        lemma_link_with_keeps_order(grown(records.drop_last()), records.last());
    }
    lemma_link_ordered_ascends(grown(records));
}

/// Taking a record in removes nothing: every record of the traversal is
/// still in it afterwards, and a record that was not set aside has joined
/// them.
pub proof fn lemma_link_with_keeps_records(link: Option<Box<TreeNode>>, record: GameData)
    ensures
        forall|i: int|
            0 <= i < link_in_order(link).len() ==> link_in_order(link_with(link, record)).contains(
                #[trigger] link_in_order(link)[i],
            ),
        !link_diverts(link, record) ==> link_in_order(link_with(link, record)).contains(record),
        forall|i: int|
            0 <= i < link_in_order(link_with(link, record)).len() ==> link_in_order(link).contains(
                #[trigger] link_in_order(link_with(link, record))[i],
            ) || link_in_order(link_with(link, record))[i] == record,
{
    let before = link_in_order(link);
    let after = link_in_order(link_with(link, record));
    let slot = link_slot(link, record);
    lemma_link_with_traversal(link, record);
    if link_diverts(link, record) {
        assert forall|i: int| 0 <= i < before.len() implies after.contains(
            #[trigger] before[i],
        ) by {
            assert(after[i] == before[i]);
        }
    } else {
        assert forall|i: int| 0 <= i < before.len() implies after.contains(
            #[trigger] before[i],
        ) by {
            if i < slot {
                assert(after[i] == before[i]);
            } else {
                assert(after[i + 1] == before[i]);
            }
        }
        assert(after[slot] == record);
        assert forall|i: int| 0 <= i < after.len() implies before.contains(#[trigger] after[i])
            || after[i] == record by {
            if i < slot {
                assert(after[i] == before[i]);
            } else if i > slot {
                assert(after[i] == before[i - 1]);
            }
        }
    }
}

/// The tree holds nothing but records that were given to it.
pub proof fn lemma_grown_holds_only_given(records: Seq<GameData>)
    ensures
        forall|i: int|
            0 <= i < link_in_order(grown(records)).len() ==> records.contains(
                #[trigger] link_in_order(grown(records))[i],
            ),
    decreases records.len(),
{
    if records.len() > 0 {
        let earlier = records.drop_last();
        lemma_grown_holds_only_given(earlier);
        lemma_link_with_keeps_records(grown(earlier), records.last());
        let after = link_in_order(grown(records));
        assert forall|i: int| 0 <= i < after.len() implies records.contains(
            #[trigger] after[i],
        ) by {
            if after[i] == records.last() {
                assert(records[records.len() - 1] == after[i]);
            } else {
                let h = choose|h: int| 0 <= h < earlier.len() && earlier[h] == after[i];
                assert(records[h] == after[i]);
            }
        }
    }
}

/// Every record given ends in exactly one of the two places: the tree's
/// nodes and the duplicates together are as many as the records.
pub proof fn lemma_grown_counts(records: Seq<GameData>)
    ensures
        link_in_order(grown(records)).len() + set_aside(records).len() == records.len(),
    decreases records.len(),
{
    if records.len() > 0 {
        lemma_grown_counts(records.drop_last());
        lemma_link_with_traversal(grown(records.drop_last()), records.last());
    }
}

/// What the tree held and what it had set aside after the first `n`
/// records, it still holds and has set aside after all of them: the
/// duplicates of the beginning open the list of all duplicates.
pub proof fn lemma_grown_keeps_records(records: Seq<GameData>, n: int)
    requires
        0 <= n <= records.len(),
    ensures
        forall|i: int|
            0 <= i < link_in_order(grown(records.take(n))).len() ==> link_in_order(
                grown(records),
            ).contains(#[trigger] link_in_order(grown(records.take(n)))[i]),
        set_aside(records.take(n)).is_prefix_of(set_aside(records)),
    decreases records.len(),
{
    if n == records.len() {
        assert(records.take(n) =~= records);
    } else {
        let earlier = records.drop_last();
        assert(earlier.take(n) =~= records.take(n));
        lemma_grown_keeps_records(earlier, n);
        lemma_link_with_keeps_records(grown(earlier), records.last());
        let early = link_in_order(grown(records.take(n)));
        let middle = link_in_order(grown(earlier));
        let all = link_in_order(grown(records));
        assert forall|i: int| 0 <= i < early.len() implies all.contains(#[trigger] early[i]) by {
            let h = choose|h: int| 0 <= h < middle.len() && middle[h] == early[i];
            assert(all.contains(middle[h]));
        }
    }
}

/// The tree holds the equal of every number given to it: the record
/// itself, or one that came earlier and agrees with it on every level.
pub proof fn lemma_grown_holds_every_key(records: Seq<GameData>, i: int)
    requires
        all_numbers(records),
        0 <= i < records.len(),
    ensures
        holds_key(link_in_order(grown(records)), records[i]),
{
    let upto = records.take(i + 1);
    let before = grown(upto.drop_last());
    let record = records[i];
    assert(upto.last() == record);
    assert(upto.drop_last() =~= records.take(i));
    assert(all_numbers(records.take(i)));
    lemma_grown_is_search_tree(records.take(i));
    lemma_link_diverts_iff_held(before, record);
    lemma_link_with_keeps_records(before, record);
    lemma_link_with_traversal(before, record);
    let held = link_in_order(grown(upto));
    let at = choose|at: int| 0 <= at < held.len() && (#[trigger] held[at]).same_key(record);
    lemma_grown_keeps_records(records, i + 1);
    let all = link_in_order(grown(records));
    let found = choose|found: int| 0 <= found < all.len() && all[found] == held[at];
    assert(all[found].same_key(record));
}

/// A number that agrees on every level with one given before it is set
/// aside when its turn comes: the tree stays as it was, the record joins
/// the duplicates, and it is among them at the end.
pub proof fn lemma_repeat_is_set_aside(records: Seq<GameData>, i: int, j: int)
    requires
        all_numbers(records),
        0 <= i < j < records.len(),
        records[i].same_key(records[j]),
    ensures
        link_diverts(grown(records.take(j)), records[j]),
        grown(records.take(j + 1)) == grown(records.take(j)),
        set_aside(records.take(j + 1)) == set_aside(records.take(j)).push(records[j]),
        set_aside(records).contains(records[j]),
{
    let before = records.take(j);
    let upto = records.take(j + 1);
    assert(upto.drop_last() =~= before);
    assert(upto.last() == records[j]);
    assert(all_numbers(before));
    lemma_grown_is_search_tree(before);
    lemma_grown_holds_every_key(before, i);
    let held = link_in_order(grown(before));
    let at = choose|at: int| 0 <= at < held.len() && (#[trigger] held[at]).same_key(before[i]);
    lemma_same_key_stands_alike(records[i], records[j], held[at]);
    assert(held[at].same_key(records[j]));
    lemma_link_diverts_iff_held(grown(before), records[j]);
    lemma_link_with_traversal(grown(before), records[j]);
    lemma_grown_keeps_records(records, j + 1);
    let aside = set_aside(upto);
    assert(aside[aside.len() - 1] == records[j]);
    assert(set_aside(records)[aside.len() - 1] == records[j]);
}

/// A number that agrees with none given before it becomes a node when its
/// turn comes and is in the tree at the end.
pub proof fn lemma_first_is_placed(records: Seq<GameData>, i: int)
    requires
        all_numbers(records),
        0 <= i < records.len(),
        forall|h: int| 0 <= h < i ==> !(#[trigger] records[h]).same_key(records[i]),
    ensures
        !link_diverts(grown(records.take(i)), records[i]),
        link_in_order(grown(records)).contains(records[i]),
{
    let before = records.take(i);
    let upto = records.take(i + 1);
    assert(upto.drop_last() =~= before);
    assert(upto.last() == records[i]);
    assert(all_numbers(before));
    lemma_grown_is_search_tree(before);
    lemma_grown_holds_only_given(before);
    lemma_link_diverts_iff_held(grown(before), records[i]);
    let held = link_in_order(grown(before));
    if holds_key(held, records[i]) {
        let at = choose|at: int| 0 <= at < held.len() && (#[trigger] held[at]).same_key(records[i]);
        let h = choose|h: int| 0 <= h < before.len() && before[h] == held[at];
        assert(records[h].same_key(records[i]));
    }
    lemma_link_with_keeps_records(grown(before), records[i]);
    lemma_grown_keeps_records(records, i + 1);
    let placed = link_in_order(grown(upto));
    let at = choose|at: int| 0 <= at < placed.len() && placed[at] == records[i];
    assert(link_in_order(grown(records)).contains(placed[at]));
}

/// The tree of numbers never has more nodes than there are distinct
/// records among those given.
pub proof fn lemma_grown_within_distinct(records: Seq<GameData>)
    requires
        all_numbers(records),
    ensures
        link_in_order(grown(records)).len() <= records.to_set().len(),
{
    let held = link_in_order(grown(records));
    lemma_grown_is_search_tree(records);
    lemma_grown_holds_only_given(records);
    assert forall|i: int, j: int| 0 <= i < held.len() && 0 <= j < held.len() && i != j implies held[i]
        != held[j] by {
        if i < j {
            lemma_key_less_asymmetric(held[i], held[j]);
        } else {
            lemma_key_less_asymmetric(held[j], held[i]);
        }
    }
    held.unique_seq_to_set();
    assert forall|record: GameData| held.to_set().contains(record) implies records.to_set().contains(
        record,
    ) by {
        let at = choose|at: int| 0 <= at < held.len() && held[at] == record;
        assert(records.contains(held[at]));
    }
    seq_to_set_is_finite(records);
    lemma_len_subset(held.to_set(), records.to_set());
}

} // verus!
