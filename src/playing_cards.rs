//! The classic playing cards that a game maps its encoded cards to.
use vstd::prelude::*;

verus! {

/// The rank of a classic playing card.
#[derive(Clone, Copy, Debug, PartialEq, Eq, Structural, Hash)]
pub enum Value {
    Two,
    Three,
    Four,
    Five,
    Six,
    Seven,
    Eight,
    Nine,
    Ten,
    Jack,
    Queen,
    King,
    Ace,
}

/// The suit of a classic playing card.
#[derive(Clone, Copy, Debug, PartialEq, Eq, Structural, Hash)]
pub enum Suite {
    Club,
    Diamond,
    Heart,
    Spade,
}

/// A classic playing card: a rank and a suit.
#[derive(Clone, Copy, Debug, PartialEq, Eq, Structural, Hash)]
pub struct ClassicPlayingCard {
    pub value: Value,
    pub suite: Suite,
}

impl ClassicPlayingCard {
    pub fn new(value: Value, suite: Suite) -> (r: ClassicPlayingCard)
        ensures
            r.value == value,
            r.suite == suite,
    {
        ClassicPlayingCard { value, suite }
    }
}

} // verus!
