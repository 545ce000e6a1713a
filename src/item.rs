use vstd::prelude::*;
use crate::hand::{Hand, hand_is};

verus! {

/// Things a player can buy.
#[derive(Debug, Clone, Copy, PartialEq, Eq)]
pub enum Item {
    Settlement,
    City,
    Road,
    DevelopmentCard,
}

/// The counts, in resource order, that buying `item` takes.
pub open spec fn item_cost(item: Item) -> Seq<int> {
    match item {
        Item::Road => seq![1int, 1, 0, 0, 0],
        Item::Settlement => seq![1int, 1, 1, 1, 0],
        Item::City => seq![0int, 0, 0, 2, 3],
        Item::DevelopmentCard => seq![0int, 0, 1, 1, 1],
    }
}

/// The item whose name in the game log is `s`, if any.
pub open spec fn item_named(s: Seq<char>) -> Option<Item> {
    if s == "settlement"@ {
        Some(Item::Settlement)
    } else if s == "city"@ {
        Some(Item::City)
    } else if s == "road"@ {
        Some(Item::Road)
    } else if s == "development card"@ {
        Some(Item::DevelopmentCard)
    } else {
        None
    }
}

/// The hand that buying `item` takes.
pub open spec fn cost_hand(item: Item) -> Hand {
    match item {
        Item::Road => Hand([1, 1, 0, 0, 0]),
        Item::Settlement => Hand([1, 1, 1, 1, 0]),
        Item::City => Hand([0, 0, 0, 2, 3]),
        Item::DevelopmentCard => Hand([0, 0, 1, 1, 1]),
    }
}

impl Item {
    /// The resources that buying this item takes.
    pub fn cost(self) -> (r: Hand)
        ensures
            r == cost_hand(self),
            hand_is(r, item_cost(self)),
    {
        match self {
            Item::Road => Hand([1, 1, 0, 0, 0]),
            Item::Settlement => Hand([1, 1, 1, 1, 0]),
            Item::City => Hand([0, 0, 0, 2, 3]),
            Item::DevelopmentCard => Hand([0, 0, 1, 1, 1]),
        }
    }

    /// Reads an item from its name in the game log.
    pub fn from_name(s: &str) -> (r: Option<Item>)
        ensures
            r == item_named(s@),
    {
        if crate::resource::str_is(s, "settlement") {
            Some(Item::Settlement)
        } else if crate::resource::str_is(s, "city") {
            Some(Item::City)
        } else if crate::resource::str_is(s, "road") {
            Some(Item::Road)
        } else if crate::resource::str_is(s, "development card") {
            Some(Item::DevelopmentCard)
        } else {
            None
        }
    }
}

} // verus!
