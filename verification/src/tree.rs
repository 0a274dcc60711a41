//! The ordered tree.
//!
//! A [`TreeNode`] owns one record and up to two subtrees. A record that
//! arrives is compared with the node's record: `Less` sends it to the left,
//! `Greater` to the right, and `Equal` ends its way, for it is a duplicate.
//! Where the side it is sent to is empty, it becomes a leaf there. Nodes are
//! never moved, changed or removed.
use vstd::prelude::*;
use crate::record::GameData;
use crate::search_order::{
    lemma_link_diverts_iff_held, lemma_link_ordered_ascends, lemma_link_with_keeps_order,
    lemma_link_with_traversal,
};
use crate::text::Order;

verus! {

/// A node of the tree: a record, and what lies to its left and right.
#[derive(Debug)]
pub struct TreeNode {
    pub data: GameData,
    pub left: Option<Box<TreeNode>>,
    pub right: Option<Box<TreeNode>>,
}

/// The records of a subtree that may be absent, in order of traversal.
pub open spec fn link_in_order(link: Option<Box<TreeNode>>) -> Seq<GameData>
    decreases link,
{
    match link {
        None => Seq::empty(),
        Some(node) => node.in_order(),
    }
}

/// Whether the record would end as a duplicate in a subtree that may be
/// absent.
pub open spec fn link_diverts(link: Option<Box<TreeNode>>, record: GameData) -> bool
    decreases link,
{
    match link {
        None => false,
        Some(node) => node.diverts(record),
    }
}

/// A subtree that may be absent, after the record was sent into it.
pub open spec fn link_with(link: Option<Box<TreeNode>>, record: GameData) -> Option<Box<TreeNode>>
    decreases link,
{
    match link {
        None => Some(Box::new(TreeNode::leaf(record))),
        Some(node) => Some(Box::new(node.with(record))),
    }
}

/// Whether each record comes before every later one.
pub open spec fn ascending(records: Seq<GameData>) -> bool {
    forall|i: int, j: int|
        0 <= i < j < records.len() ==> #[trigger] records[i].key_less(#[trigger] records[j])
}

/// Whether every record's measure is a number.
pub open spec fn all_numbers(records: Seq<GameData>) -> bool {
    forall|i: int| 0 <= i < records.len() ==> (#[trigger] records[i]).is_number()
}

/// Whether every record comes before the pivot.
pub open spec fn all_before(records: Seq<GameData>, pivot: GameData) -> bool {
    forall|i: int| 0 <= i < records.len() ==> (#[trigger] records[i]).key_less(pivot)
}

/// Whether the pivot comes before every record.
pub open spec fn all_after(records: Seq<GameData>, pivot: GameData) -> bool {
    forall|i: int| 0 <= i < records.len() ==> pivot.key_less(#[trigger] records[i])
}

/// Whether some record agrees with the given one on every level.
pub open spec fn holds_key(records: Seq<GameData>, record: GameData) -> bool {
    exists|i: int| 0 <= i < records.len() && (#[trigger] records[i]).same_key(record)
}

/// The search-tree invariant for a subtree that may be absent.
pub open spec fn link_ordered(link: Option<Box<TreeNode>>) -> bool
    decreases link,
{
    match link {
        None => true,
        Some(node) => node.ordered(),
    }
}

/// Where the record lands among the records of a subtree that may be
/// absent.
pub open spec fn link_slot(link: Option<Box<TreeNode>>, record: GameData) -> int
    decreases link,
{
    match link {
        None => 0,
        Some(node) => node.slot(record),
    }
}

impl TreeNode {
    /// A node without subtrees.
    pub open spec fn leaf(data: GameData) -> TreeNode {
        TreeNode { data, left: None, right: None }
    }

    /// The records of the subtree: those to the left, the node's own, those
    /// to the right.
    pub open spec fn in_order(self) -> Seq<GameData>
        decreases self,
    {
        link_in_order(self.left) + seq![self.data] + link_in_order(self.right)
    }

    /// Whether the record, on its way down from this node, meets a record
    /// that it equals on every level.
    pub open spec fn diverts(self, record: GameData) -> bool
        decreases self,
    {
        match record.order_to(self.data) {
            Order::Equal => true,
            Order::Less => link_diverts(self.left, record),
            Order::Greater => link_diverts(self.right, record),
        }
    }

    /// The subtree after the record was sent into it: unchanged where the
    /// record is a duplicate, and otherwise with one new leaf at the end of
    /// the record's way down.
    pub open spec fn with(self, record: GameData) -> TreeNode
        decreases self,
    {
        match record.order_to(self.data) {
            Order::Equal => self,
            Order::Less => TreeNode {
                data: self.data,
                left: link_with(self.left, record),
                right: self.right,
            },
            Order::Greater => TreeNode {
                data: self.data,
                left: self.left,
                right: link_with(self.right, record),
            },
        }
    }

    /// The search-tree invariant: every measure in the subtree is a number,
    /// everything to the left of a node comes before the node's record, and
    /// everything to its right comes after it.
    pub open spec fn ordered(self) -> bool
        decreases self,
    {
        &&& self.data.is_number()
        &&& link_ordered(self.left)
        &&& link_ordered(self.right)
        &&& all_before(link_in_order(self.left), self.data)
        &&& all_after(link_in_order(self.right), self.data)
    }

    /// Where the record's way down ends, counted in records of the
    /// traversal: the index of the leaf that it becomes, or of the equal
    /// record that it meets.
    pub open spec fn slot(self, record: GameData) -> int
        decreases self,
    {
        match record.order_to(self.data) {
            Order::Equal => link_in_order(self.left).len() as int,
            Order::Less => link_slot(self.left, record),
            Order::Greater => link_in_order(self.left).len() + 1 + link_slot(self.right, record),
        }
    }

    /// A node that holds the record and has no subtrees.
    pub fn new(data: GameData) -> (node: TreeNode)
        ensures
            node == TreeNode::leaf(data),
    {
        TreeNode { data, left: None, right: None }
    }

    /// Sends the record down from this node. It either becomes a new leaf,
    /// and the result is `true`, or meets its equal and is pushed onto
    /// `duplicates`, and the result is `false`.
    pub fn insert(&mut self, data: GameData, duplicates: &mut Vec<GameData>) -> (placed: bool)
        ensures
            *final(self) == old(self).with(data),
            placed == !old(self).diverts(data),
            final(duplicates)@ == if placed {
                old(duplicates)@
            } else {
                old(duplicates)@.push(data)
            },
            !placed ==> *final(self) == *old(self),
            placed ==> final(self).in_order() == old(self).in_order().insert(
                old(self).slot(data),
                data,
            ),
            old(self).ordered() && data.is_number() ==> final(self).ordered() && placed
                == !holds_key(old(self).in_order(), data),
        decreases *old(self),
    {
        proof {
            let before = Some(Box::new(*old(self)));
            assert(link_in_order(before) == old(self).in_order());
            assert(link_diverts(before, data) == old(self).diverts(data));
            assert(link_ordered(before) == old(self).ordered());
            assert(link_slot(before, data) == old(self).slot(data));
            assert(link_with(before, data) == Some(Box::new(old(self).with(data))));
            lemma_link_with_traversal(before, data);
            if old(self).ordered() && data.is_number() {
                lemma_link_with_keeps_order(before, data);
                lemma_link_diverts_iff_held(before, data);
            }
        }
        match data.compare(&self.data) {
            Order::Equal => {
                duplicates.push(data);
                false
            },
            Order::Less => match &mut self.left {
                Some(left_node) => left_node.insert(data, duplicates),
                None => {
                    self.left = Some(Box::new(TreeNode::new(data)));
                    true
                },
            },
            Order::Greater => match &mut self.right {
                Some(right_node) => right_node.insert(data, duplicates),
                None => {
                    self.right = Some(Box::new(TreeNode::new(data)));
                    true
                },
            },
        }
    }

    /// Appends the records of the subtree to `out`: left subtree, the
    /// node's own record, right subtree.
    pub fn traverse_into(&self, out: &mut Vec<GameData>)
        ensures
            final(out)@ == old(out)@ + self.in_order(),
        decreases self,
    {
        if let Some(left_node) = &self.left {
            left_node.traverse_into(out);
        }
        out.push(self.data.clone());
        if let Some(right_node) = &self.right {
            right_node.traverse_into(out);
        }
        assert(out@ =~= old(out)@ + self.in_order());
    }

    /// The records of the subtree in order of traversal.
    pub fn traverse(&self) -> (records: Vec<GameData>)
        ensures
            records@ == self.in_order(),
            self.ordered() ==> ascending(records@),
    {
        proof {
            if self.ordered() {
                lemma_link_ordered_ascends(Some(Box::new(*self)));
            }
        }
        let mut records: Vec<GameData> = Vec::new();
        self.traverse_into(&mut records);
        assert(records@ =~= self.in_order());
        records
    }
}

/// A tree that may be empty, with the duplicates that it has set aside.
#[derive(Debug)]
pub struct Tree {
    pub root: Option<Box<TreeNode>>,
    pub duplicates: Vec<GameData>,
}

impl Tree {
    /// The records in the tree, in order of traversal.
    pub open spec fn in_order(self) -> Seq<GameData> {
        link_in_order(self.root)
    }

    /// The search-tree invariant, which an empty tree meets.
    pub open spec fn ordered(self) -> bool {
        link_ordered(self.root)
    }

    /// A tree without a root and with no duplicates.
    pub fn new() -> (tree: Tree)
        ensures
            tree.root is None,
            tree.duplicates@ == Seq::<GameData>::empty(),
            tree.ordered(),
            tree.in_order() == Seq::<GameData>::empty(),
    {
        Tree { root: None, duplicates: Vec::new() }
    }

    /// Whether the tree has no root.
    pub fn is_empty(&self) -> (empty: bool)
        ensures
            empty == (self.root is None),
    {
        self.root.is_none()
    }

    /// Takes one record in. The first record becomes the root, compared
    /// with nothing. Each later one is sent down from the root and either
    /// becomes a new leaf, and the result is `true`, or meets its equal and
    /// joins the duplicates, and the result is `false`.
    pub fn insert(&mut self, data: GameData) -> (placed: bool)
        ensures
            final(self).root == link_with(old(self).root, data),
            placed == !link_diverts(old(self).root, data),
            final(self).duplicates@ == if placed {
                old(self).duplicates@
            } else {
                old(self).duplicates@.push(data)
            },
            old(self).root is None ==> placed && final(self).root == Some(
                Box::new(TreeNode::leaf(data)),
            ),
            !placed ==> final(self).root == old(self).root,
            placed ==> final(self).in_order() == old(self).in_order().insert(
                link_slot(old(self).root, data),
                data,
            ),
            old(self).ordered() && data.is_number() ==> final(self).ordered() && placed
                == !holds_key(old(self).in_order(), data),
    {
        proof {
            lemma_link_with_traversal(self.root, data);
            if self.ordered() && data.is_number() {
                lemma_link_with_keeps_order(self.root, data);
                lemma_link_diverts_iff_held(self.root, data);
            }
        }
        match &mut self.root {
            None => {
                self.root = Some(Box::new(TreeNode::new(data)));
                true
            },
            Some(root) => root.insert(data, &mut self.duplicates),
        }
    }

    /// The records in the tree: left subtree, node, right subtree, from the
    /// root down. The duplicates are not among them.
    pub fn traverse(&self) -> (records: Vec<GameData>)
        ensures
            records@ == self.in_order(),
            self.ordered() ==> ascending(records@),
    {
        proof {
            if self.ordered() {
                lemma_link_ordered_ascends(self.root);
            }
        }
        match &self.root {
            None => Vec::new(),
            Some(root) => root.traverse(),
        }
    }
}

} // verus!
