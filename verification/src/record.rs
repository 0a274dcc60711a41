//! Records of user events and the order in which the tree keeps them.
//!
//! Two records are compared level by level: by identifier, by name, by
//! behaviour, by measure. The first level that tells them apart decides.
//! Each level has a comparator of its own, and [`GameData::compare`] runs
//! them in turn.
use vstd::prelude::*;
use crate::measure::Measure;
use crate::text::{
    compare_text, lemma_text_less_asymmetric, lemma_text_less_total, lemma_text_less_transitive,
    lowercase, lowercase_of, text_less, text_order, Order,
};

verus! {

/// What the user did with the game. `Error` stands for a label that was
/// neither of the two and orders after both.
#[derive(Clone, Copy, Debug, PartialEq, Eq, Structural)]
pub enum Behavior {
    Play,
    Purchase,
    Error,
}

impl Behavior {
    /// The place of the behaviour in the order `Play`, `Purchase`, `Error`.
    pub open spec fn ordinal(self) -> int {
        match self {
            Behavior::Play => 0,
            Behavior::Purchase => 1,
            Behavior::Error => 2,
        }
    }

    /// The behaviour that a label in lower case names.
    pub open spec fn of_lowered(lowered: Seq<char>) -> Behavior {
        if lowered == "play"@ {
            Behavior::Play
        } else if lowered == "purchase"@ {
            Behavior::Purchase
        } else {
            Behavior::Error
        }
    }

    /// The place of the behaviour in the order `Play`, `Purchase`, `Error`.
    pub fn position(&self) -> (n: u8)
        ensures
            n == self.ordinal(),
    {
        match self {
            Behavior::Play => 0,
            Behavior::Purchase => 1,
            Behavior::Error => 2,
        }
    }

    /// Reads a label that is already in lower case: `play`, `purchase`, or
    /// anything else for `Error`.
    pub fn from_lowered(lowered: &str) -> (b: Behavior)
        ensures
            b == Behavior::of_lowered(lowered@),
    {
        match compare_text(lowered, "play") {
            Order::Equal => Behavior::Play,
            _ => match compare_text(lowered, "purchase") {
                Order::Equal => Behavior::Purchase,
                _ => Behavior::Error,
            },
        }
    }

    /// Reads a label without regard to case.
    pub fn from_label(label: &str) -> (b: Behavior)
        ensures
            b == Behavior::of_lowered(lowercase_of(label@)),
    {
        let lowered = lowercase(label);
        Behavior::from_lowered(lowered.as_str())
    }
}

/// One user event: who, which game, what was done, and how much of it.
#[derive(Debug, PartialEq)]
pub struct GameData {
    pub id: u32,
    pub game_name: String,
    pub behaviour: Behavior,
    pub play_purchase: Measure,
}

impl Clone for GameData {
    fn clone(&self) -> (copy: Self)
        ensures
            copy == *self,
    {
        GameData {
            id: self.id,
            game_name: self.game_name.clone(),
            behaviour: self.behaviour,
            play_purchase: self.play_purchase,
        }
    }
}

/// The order of two integers.
pub open spec fn int_order(a: int, b: int) -> Order {
    if a < b {
        Order::Less
    } else if a == b {
        Order::Equal
    } else {
        Order::Greater
    }
}

/// The order of two measures. Equal numbers are `Equal` and a smaller
/// number is `Less`; everything else is `Greater`, a pattern that is no
/// number on either side included.
pub open spec fn measure_order(a: Measure, b: Measure) -> Order {
    if a.same_number(b) {
        Order::Equal
    } else if a.below(b) {
        Order::Less
    } else {
        Order::Greater
    }
}

/// The first of the two orders that is not `Equal`, or `Equal`.
pub open spec fn or_else(first: Order, next: Order) -> Order {
    if first == Order::Equal {
        next
    } else {
        first
    }
}

/// First level: identifiers, ascending.
pub fn compare_id(a: u32, b: u32) -> (o: Order)
    ensures
        o == int_order(a as int, b as int),
{
    if a < b {
        Order::Less
    } else if a == b {
        Order::Equal
    } else {
        Order::Greater
    }
}

/// Second level: names, in dictionary order.
pub fn compare_name(a: &str, b: &str) -> (o: Order)
    ensures
        o == text_order(a@, b@),
{
    compare_text(a, b)
}

/// Third level: behaviours, `Play` before `Purchase` before `Error`.
pub fn compare_behaviour(a: Behavior, b: Behavior) -> (o: Order)
    ensures
        o == int_order(a.ordinal(), b.ordinal()),
{
    let x: u8 = a.position();
    let y: u8 = b.position();
    if x < y {
        Order::Less
    } else if x == y {
        Order::Equal
    } else {
        Order::Greater
    }
}

/// Fourth level: measures, ascending.
pub fn compare_measure(a: Measure, b: Measure) -> (o: Order)
    ensures
        o == measure_order(a, b),
{
    if a.equals(&b) {
        Order::Equal
    } else if a.less_than(&b) {
        Order::Less
    } else {
        Order::Greater
    }
}

impl GameData {
    /// How this record stands to another: the verdict of the first level
    /// that tells them apart, `Equal` if none does.
    pub open spec fn order_to(self, other: GameData) -> Order {
        or_else(
            int_order(self.id as int, other.id as int),
            or_else(
                text_order(self.game_name@, other.game_name@),
                or_else(
                    int_order(self.behaviour.ordinal(), other.behaviour.ordinal()),
                    measure_order(self.play_purchase, other.play_purchase),
                ),
            ),
        )
    }

    /// Whether the measure is a number.
    pub open spec fn is_number(self) -> bool {
        !self.play_purchase.is_nan()
    }

    /// Whether two records agree on all four levels.
    pub open spec fn same_key(self, other: GameData) -> bool {
        &&& self.id == other.id
        &&& self.game_name@ == other.game_name@
        &&& self.behaviour == other.behaviour
        &&& self.play_purchase.rank() == other.play_purchase.rank()
    }

    /// Whether this record comes strictly before the other: lower on the
    /// first level on which they differ.
    pub open spec fn key_less(self, other: GameData) -> bool {
        ||| self.id < other.id
        ||| self.id == other.id && text_less(self.game_name@, other.game_name@)
        ||| self.id == other.id && self.game_name@ == other.game_name@
            && self.behaviour.ordinal() < other.behaviour.ordinal()
        ||| self.id == other.id && self.game_name@ == other.game_name@
            && self.behaviour == other.behaviour
            && self.play_purchase.rank() < other.play_purchase.rank()
    }

    /// The record that stands for a row that could not be taken apart.
    pub fn sentinel() -> (record: GameData)
        ensures
            record.id == 0,
            record.game_name@ == "Unknown"@,
            record.behaviour == Behavior::Error,
            record.play_purchase.bits == 0,
    {
        GameData {
            id: 0,
            game_name: "Unknown".to_owned(),
            behaviour: Behavior::Error,
            play_purchase: Measure::zero(),
        }
    }

    /// Compares two records level by level and stops at the first level
    /// that tells them apart.
    pub fn compare(&self, other: &GameData) -> (o: Order)
        ensures
            o == self.order_to(*other),
    {
        let by_id = compare_id(self.id, other.id);
        if by_id != Order::Equal {
            return by_id;
        }
        let by_name = compare_name(self.game_name.as_str(), other.game_name.as_str());
        if by_name != Order::Equal {
            return by_name;
        }
        let by_behaviour = compare_behaviour(self.behaviour, other.behaviour);
        if by_behaviour != Order::Equal {
            return by_behaviour;
        }
        compare_measure(self.play_purchase, other.play_purchase)
    }
}

/// Between records whose measures are numbers, the comparison says `Less`
/// exactly where the first comes before the second, `Equal` exactly where
/// they agree on every level, and `Greater` exactly where the second comes
/// before the first.
pub proof fn lemma_order_follows_keys(a: GameData, b: GameData)
    requires
        a.is_number(),
        b.is_number(),
    ensures
        a.order_to(b) == Order::Less <==> a.key_less(b),
        a.order_to(b) == Order::Equal <==> a.same_key(b),
        a.order_to(b) == Order::Greater <==> b.key_less(a),
{
    if a.game_name@ != b.game_name@ {
        lemma_text_less_total(a.game_name@, b.game_name@);
    }
    if text_less(a.game_name@, b.game_name@) {
        lemma_text_less_asymmetric(a.game_name@, b.game_name@);
    }
    if text_less(b.game_name@, a.game_name@) {
        lemma_text_less_asymmetric(b.game_name@, a.game_name@);
    }
}

/// No record comes before one that comes before it, nor before one that it
/// agrees with on every level.
pub proof fn lemma_key_less_asymmetric(a: GameData, b: GameData)
    requires
        a.key_less(b),
    ensures
        !b.key_less(a),
        !a.same_key(b),
        !b.same_key(a),
{
    if text_less(a.game_name@, b.game_name@) {
        lemma_text_less_asymmetric(a.game_name@, b.game_name@);
    }
    if text_less(b.game_name@, a.game_name@) {
        lemma_text_less_asymmetric(b.game_name@, a.game_name@);
    }
}

/// Coming before is transitive.
pub proof fn lemma_key_less_transitive(a: GameData, b: GameData, c: GameData)
    requires
        a.key_less(b),
        b.key_less(c),
    ensures
        a.key_less(c),
{
    if text_less(a.game_name@, b.game_name@) && text_less(b.game_name@, c.game_name@) {
        lemma_text_less_transitive(a.game_name@, b.game_name@, c.game_name@);
    }
}

/// Records that agree on every level come before the same records and
/// after the same records.
pub proof fn lemma_same_key_stands_alike(a: GameData, b: GameData, c: GameData)
    requires
        a.same_key(b),
    ensures
        a.key_less(c) == b.key_less(c),
        c.key_less(a) == c.key_less(b),
        a.same_key(c) == b.same_key(c),
{
}

} // verus!
