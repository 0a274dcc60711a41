use game_records::measure::Measure;
use game_records::record::{compare_id, compare_behaviour, compare_name, Behavior, GameData};
use game_records::text::Order;
use game_records::tree::{Tree, TreeNode};

fn number(value: f64) -> Measure {
    Measure::from_bits(value.to_bits())
}

fn record(id: u32, name: &str, behaviour: Behavior, measure: f64) -> GameData {
    GameData {
        id,
        game_name: name.to_string(),
        behaviour,
        play_purchase: number(measure),
    }
}

fn play(id: u32, name: &str, measure: f64) -> GameData {
    record(id, name, Behavior::Play, measure)
}

fn ascends(records: &Vec<GameData>) -> bool {
    let mut i: usize = 1;
    while i < records.len() {
        if records[i - 1].compare(&records[i]) != Order::Less {
            return false;
        }
        i += 1;
    }
    true
}

#[test]
fn four_records_make_three_nodes_and_one_duplicate() {
    let ids: [u32; 4] = [5, 3, 5, 3];
    let names = ["X", "A", "X", "A"];
    let measures = [1.0, 1.0, 2.0, 1.0];
    let mut tree = Tree::new();
    let mut placed: Vec<bool> = Vec::new();
    for i in 0..4 {
        placed.push(tree.insert(play(ids[i], names[i], measures[i])));
    }
    assert_eq!(placed, vec![true, true, true, false]);
    assert_eq!(
        tree.traverse(),
        vec![play(3, "A", 1.0), play(5, "X", 1.0), play(5, "X", 2.0)]
    );
    assert_eq!(tree.duplicates, vec![play(3, "A", 1.0)]);
}

#[test]
fn first_record_becomes_the_root_whatever_it_holds() {
    let firsts = [
        play(0, "", 0.0),
        record(u32::MAX, "zzzz", Behavior::Error, f64::INFINITY),
        record(7, "Unknown", Behavior::Error, f64::NAN),
        record(1, "n", Behavior::Purchase, -0.0),
    ];
    for first in firsts {
        let mut tree = Tree::new();
        assert!(tree.is_empty());
        assert!(tree.insert(first.clone()));
        assert!(!tree.is_empty());
        let root = tree.root.as_ref().unwrap();
        assert_eq!(root.data.id, first.id);
        assert_eq!(root.data.game_name, first.game_name);
        assert_eq!(root.data.behaviour, first.behaviour);
        assert_eq!(root.data.play_purchase.to_bits(), first.play_purchase.to_bits());
        assert!(root.left.is_none());
        assert!(root.right.is_none());
        assert!(tree.duplicates.is_empty());
    }
}

#[test]
fn empty_tree_has_nothing_to_traverse() {
    let tree = Tree::new();
    assert!(tree.is_empty());
    assert!(tree.traverse().is_empty());
    assert!(tree.duplicates.is_empty());
}

#[test]
fn new_node_is_a_leaf() {
    let node = TreeNode::new(play(1, "a", 1.0));
    assert_eq!(node.data, play(1, "a", 1.0));
    assert!(node.left.is_none());
    assert!(node.right.is_none());
    assert_eq!(node.traverse(), vec![play(1, "a", 1.0)]);
}

#[test]
fn each_level_decides_only_after_the_ones_before() {
    let base = record(5, "M", Behavior::Purchase, 1.0);
    assert_eq!(record(4, "Z", Behavior::Error, 9.0).compare(&base), Order::Less);
    assert_eq!(record(6, "A", Behavior::Play, 0.0).compare(&base), Order::Greater);
    assert_eq!(record(5, "L", Behavior::Error, 9.0).compare(&base), Order::Less);
    assert_eq!(record(5, "N", Behavior::Play, 0.0).compare(&base), Order::Greater);
    assert_eq!(record(5, "M", Behavior::Play, 9.0).compare(&base), Order::Less);
    assert_eq!(record(5, "M", Behavior::Error, 0.0).compare(&base), Order::Greater);
    assert_eq!(record(5, "M", Behavior::Purchase, 0.5).compare(&base), Order::Less);
    assert_eq!(record(5, "M", Behavior::Purchase, 1.5).compare(&base), Order::Greater);
    assert_eq!(record(5, "M", Behavior::Purchase, 1.0).compare(&base), Order::Equal);
}

#[test]
fn level_comparators_stand_alone() {
    assert_eq!(compare_id(1, 2), Order::Less);
    assert_eq!(compare_id(2, 2), Order::Equal);
    assert_eq!(compare_id(3, 2), Order::Greater);
    assert_eq!(compare_behaviour(Behavior::Play, Behavior::Purchase), Order::Less);
    assert_eq!(compare_behaviour(Behavior::Purchase, Behavior::Error), Order::Less);
    assert_eq!(compare_behaviour(Behavior::Error, Behavior::Play), Order::Greater);
    assert_eq!(compare_behaviour(Behavior::Error, Behavior::Error), Order::Equal);
}

#[test]
fn names_are_ordered_by_code_point() {
    assert_eq!(compare_name("A", "B"), Order::Less);
    assert_eq!(compare_name("B", "A"), Order::Greater);
    assert_eq!(compare_name("same", "same"), Order::Equal);
    assert_eq!(compare_name("", "a"), Order::Less);
    assert_eq!(compare_name("a", ""), Order::Greater);
    assert_eq!(compare_name("", ""), Order::Equal);
    assert_eq!(compare_name("Half", "Half-Life"), Order::Less);
    assert_eq!(compare_name("Z", "a"), Order::Less);
    assert_eq!(compare_name("z", "\u{e9}"), Order::Less);
    assert_eq!(compare_name("\u{ffff}", "\u{10000}"), Order::Less);
    assert_eq!(compare_name("\u{e9}a", "\u{e9}"), Order::Greater);
}

#[test]
fn tie_on_three_levels_is_placed_by_measure() {
    let mut tree = Tree::new();
    assert!(tree.insert(play(1, "g", 2.0)));
    assert!(tree.insert(play(1, "g", 1.0)));
    assert!(tree.insert(play(1, "g", 3.0)));
    assert!(tree.duplicates.is_empty());
    let root = tree.root.as_ref().unwrap();
    assert_eq!(root.left.as_ref().unwrap().data, play(1, "g", 1.0));
    assert_eq!(root.right.as_ref().unwrap().data, play(1, "g", 3.0));
    assert_eq!(
        tree.traverse(),
        vec![play(1, "g", 1.0), play(1, "g", 2.0), play(1, "g", 3.0)]
    );
}

#[test]
fn shape_follows_the_order_of_arrival() {
    let mut tree = Tree::new();
    for id in [4u32, 2, 6, 1, 3, 5, 7] {
        assert!(tree.insert(play(id, "n", 1.0)));
    }
    let root = tree.root.as_ref().unwrap();
    assert_eq!(root.data.id, 4);
    let left = root.left.as_ref().unwrap();
    let right = root.right.as_ref().unwrap();
    assert_eq!(left.data.id, 2);
    assert_eq!(right.data.id, 6);
    assert_eq!(left.left.as_ref().unwrap().data.id, 1);
    assert_eq!(left.right.as_ref().unwrap().data.id, 3);
    assert_eq!(right.left.as_ref().unwrap().data.id, 5);
    assert_eq!(right.right.as_ref().unwrap().data.id, 7);
}

#[test]
fn ascending_arrivals_make_a_chain_to_the_right() {
    let mut tree = Tree::new();
    for id in 0u32..50 {
        tree.insert(play(id, "n", 1.0));
    }
    let mut node = tree.root.as_ref().unwrap();
    let mut depth: u32 = 0;
    while let Some(next) = node.right.as_ref() {
        assert!(node.left.is_none());
        node = next;
        depth += 1;
    }
    assert_eq!(depth, 49);
}

#[test]
fn traversal_ascends_and_holds_no_two_equal_records() {
    let mut tree = Tree::new();
    let mut given: usize = 0;
    let mut seed: u32 = 12345;
    for _ in 0..400 {
        seed = seed.wrapping_mul(1103515245).wrapping_add(12345);
        let id: u32 = (seed >> 16) % 5;
        let name = ["a", "b", "ab", ""][((seed >> 8) % 4) as usize];
        let behaviour = [Behavior::Play, Behavior::Purchase, Behavior::Error][((seed >> 4) % 3) as usize];
        let measure = [-1.5, -0.0, 0.0, 2.0][(seed % 4) as usize];
        tree.insert(record(id, name, behaviour, measure));
        given += 1;
    }
    let records = tree.traverse();
    assert!(ascends(&records));
    assert_eq!(records.len() + tree.duplicates.len(), given);
    assert!(records.len() <= 5 * 4 * 3 * 3);
    for duplicate in &tree.duplicates {
        assert!(records.iter().any(|held| duplicate.compare(held) == Order::Equal));
    }
}

#[test]
fn second_copy_goes_to_the_duplicates_and_not_to_the_tree() {
    let mut tree = Tree::new();
    tree.insert(play(10, "root", 1.0));
    tree.insert(play(20, "other", 1.0));
    let first = record(15, "Portal", Behavior::Purchase, 9.99);
    let second = record(15, "Portal", Behavior::Purchase, 9.99);
    assert!(tree.insert(first));
    tree.insert(play(17, "between", 0.0));
    let before = tree.traverse();
    assert!(!tree.insert(second));
    assert_eq!(tree.traverse(), before);
    assert_eq!(tree.duplicates, vec![record(15, "Portal", Behavior::Purchase, 9.99)]);
    assert_eq!(before.iter().filter(|held| held.id == 15).count(), 1);
}

#[test]
fn duplicates_keep_the_order_in_which_they_were_found() {
    let mut tree = Tree::new();
    for id in [3u32, 1, 2] {
        tree.insert(play(id, "n", 1.0));
    }
    for id in [2u32, 3, 1, 2] {
        assert!(!tree.insert(play(id, "n", 1.0)));
    }
    let found: Vec<u32> = tree.duplicates.iter().map(|held| held.id).collect();
    assert_eq!(found, vec![2, 3, 1, 2]);
    assert_eq!(tree.traverse().len(), 3);
}

#[test]
fn the_two_zeros_are_one_measure() {
    let mut tree = Tree::new();
    assert!(tree.insert(play(1, "n", 0.0)));
    assert!(!tree.insert(play(1, "n", -0.0)));
    assert_eq!(tree.traverse().len(), 1);
    assert_eq!(tree.duplicates.len(), 1);
    assert_eq!(tree.duplicates[0].play_purchase.to_bits(), (-0.0f64).to_bits());
}

#[test]
fn measure_that_is_no_number_always_goes_right() {
    let mut tree = Tree::new();
    assert!(tree.insert(play(1, "n", 1.0)));
    assert!(tree.insert(play(1, "n", f64::NAN)));
    assert!(tree.insert(play(1, "n", f64::NAN)));
    assert!(tree.insert(play(1, "n", 5.0)));
    assert!(tree.duplicates.is_empty());
    let bits: Vec<u64> = tree.traverse().iter().map(|held| held.play_purchase.to_bits()).collect();
    assert_eq!(
        bits,
        vec![1.0f64.to_bits(), f64::NAN.to_bits(), f64::NAN.to_bits(), 5.0f64.to_bits()]
    );
}

#[test]
fn node_insert_reports_into_the_list_it_is_given() {
    let mut node = TreeNode::new(play(2, "n", 1.0));
    let mut duplicates: Vec<GameData> = vec![play(9, "earlier", 1.0)];
    assert!(node.insert(play(1, "n", 1.0), &mut duplicates));
    assert!(!node.insert(play(2, "n", 1.0), &mut duplicates));
    assert!(node.insert(play(3, "n", 1.0), &mut duplicates));
    assert_eq!(duplicates, vec![play(9, "earlier", 1.0), play(2, "n", 1.0)]);
    let mut out: Vec<GameData> = vec![play(0, "before", 0.0)];
    node.traverse_into(&mut out);
    assert_eq!(
        out,
        vec![play(0, "before", 0.0), play(1, "n", 1.0), play(2, "n", 1.0), play(3, "n", 1.0)]
    );
}

#[test]
fn clone_is_equal_to_the_record() {
    let kept = record(4, "Left 4 Dead 2", Behavior::Purchase, 1.0);
    assert_eq!(kept.clone(), kept);
}

#[test]
fn traverse_can_be_asked_again() {
    let mut tree = Tree::new();
    for id in [2u32, 1, 3] {
        tree.insert(play(id, "n", 1.0));
    }
    assert_eq!(tree.traverse(), tree.traverse());
}
