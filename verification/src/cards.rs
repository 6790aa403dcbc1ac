//! The 52-card model: a card is a 6-bit id in `[0, 51]`, decomposed as
//! `suit = id / 13` and `value = id % 13 + 1` (ace encoded as 1).

use vstd::prelude::*;
use vstd::string::StringExecFns;

verus! {

/// A playing card, identified by an integer in `[0, 51]`.
#[derive(Debug, Clone, Copy, Default, PartialEq, Eq, Structural, PartialOrd, Ord, Hash)]
pub struct Card(pub u8);

/// A card value in `[1, 13]`; 1 is the ace, 11..13 are J, Q, K.
#[derive(Debug, Clone, Copy, PartialEq, Eq, Structural)]
pub struct Value(pub u8);

/// One of the four suits.
#[derive(Debug, Clone, Copy, PartialEq, Eq, Structural)]
pub enum Suit {
    Clubs,
    Spades,
    Hearts,
    Diamonds,
}

pub const MAX_CARD: u8 = 51;

/// The value component of a card id: an integer in `[1, 13]`.
pub open spec fn spec_card_value(id: u8) -> int {
    id % 13 + 1
}

/// The suit component of a card id: an integer in `[0, 3]` for ids below 52.
pub open spec fn spec_card_suit(id: u8) -> int {
    id as int / 13
}

pub open spec fn spec_suit_u8(s: Suit) -> u8 {
    match s {
        Suit::Clubs => 0,
        Suit::Spades => 1,
        Suit::Hearts => 2,
        Suit::Diamonds => 3,
    }
}

pub open spec fn spec_suit_from_u8(v: u8) -> Suit {
    if v == 0 {
        Suit::Clubs
    } else if v == 1 {
        Suit::Spades
    } else if v == 2 {
        Suit::Hearts
    } else {
        Suit::Diamonds
    }
}

impl Suit {
    /// The numeric tag of this suit, in `{0, 1, 2, 3}`.
    pub fn to_u8(self) -> (r: u8)
        ensures
            r == spec_suit_u8(self),
            r <= 3,
    {
        match self {
            Suit::Clubs => 0,
            Suit::Spades => 1,
            Suit::Hearts => 2,
            Suit::Diamonds => 3,
        }
    }

    /// The suit with the given numeric tag; tags above 3 are rejected.
    pub fn from_u8(v: u8) -> (r: Suit)
        requires
            v <= 3,
        ensures
            r == spec_suit_from_u8(v),
            spec_suit_u8(r) == v,
    {
        if v == 0 {
            Suit::Clubs
        } else if v == 1 {
            Suit::Spades
        } else if v == 2 {
            Suit::Hearts
        } else {
            Suit::Diamonds
        }
    }
}

/// Converting a suit to its tag and back yields the suit again, and the tag
/// is always one of `{0, 1, 2, 3}`.
pub proof fn lemma_suit_round_trip(s: Suit)
    ensures
        spec_suit_u8(s) <= 3,
        spec_suit_from_u8(spec_suit_u8(s)) == s,
{
}

impl Value {
    /// Wraps a raw value; values outside `[1, 13]` are illegal.
    pub fn new(value: u8) -> (r: Value)
        requires
            1 <= value <= 13,
        ensures
            r.0 == value,
    {
        Value(value)
    }
}

impl Card {
    /// The card with the given value and suit: `id = (value - 1) + 13 * suit`.
    pub fn new(value: Value, suit: Suit) -> (r: Card)
        requires
            1 <= value.0 <= 13,
        ensures
            r.0 == (value.0 - 1) + 13 * spec_suit_u8(suit),
            r.valid(),
            spec_card_value(r.0) == value.0,
            spec_card_suit(r.0) == spec_suit_u8(suit),
    {
        let scale = suit.to_u8();
        let v = value.0 - 1;
        let r = Card(v + 13 * scale);
        proof {
            assert(r.0 == (value.0 - 1) + 13 * spec_suit_u8(suit));
            assert(spec_card_value(r.0) == value.0) by {
                assert(r.0 % 13 == (value.0 - 1) as u8 % 13);
            };
        }
        r
    }

    /// A card id is valid exactly when it lies in `[0, 51]`.
    pub open spec fn spec_valid(&self) -> bool {
        self.0 <= MAX_CARD
    }

    /// A card id is valid exactly when it lies in `[0, 51]`.
    #[verifier::when_used_as_spec(spec_valid)]
    pub fn valid(&self) -> (r: bool)
        ensures
            r == self.spec_valid(),
            r == (0 <= self.0 <= 51),
    {
        self.0 <= MAX_CARD
    }

    /// Splits the card id back into its value and suit components.
    pub fn into_inner(self) -> (r: (Value, Suit))
        requires
            self.valid(),
        ensures
            r.0.0 == spec_card_value(self.0),
            spec_suit_u8(r.1) == spec_card_suit(self.0),
            1 <= r.0.0 <= 13,
    {
        let suit = self.0 / 13;
        let value = (self.0 % 13) + 1;
        (Value::new(value), Suit::from_u8(suit))
    }
}

/// Every card built from a value in `[1, 13]` and a suit is valid, and the
/// decomposition returns the components it was built from.
pub proof fn lemma_card_round_trip(value: u8, s: Suit)
    requires
        1 <= value <= 13,
    ensures
        ((value - 1) + 13 * spec_suit_u8(s)) <= MAX_CARD,
        spec_card_value(((value - 1) + 13 * spec_suit_u8(s)) as u8) == value,
        spec_card_suit(((value - 1) + 13 * spec_suit_u8(s)) as u8) == spec_suit_u8(s),
{
    let id = ((value - 1) + 13 * spec_suit_u8(s)) as u8;
    assert(spec_card_value(id) == value && spec_card_suit(id) == spec_suit_u8(s)) by {
        assert(id == (value - 1) + 13 * spec_suit_u8(s));
    };
}


/// The text of a card id under the solver encoding: `value = id % 13`
/// maps 0..12 to 2..9, 10, J, Q, K, A, and `suit = id / 13` maps 0..3 to
/// c, d, h, s.
pub open spec fn spec_value_text(v: int) -> Seq<char> {
    if v == 0 {
        "2"@
    } else if v == 1 {
        "3"@
    } else if v == 2 {
        "4"@
    } else if v == 3 {
        "5"@
    } else if v == 4 {
        "6"@
    } else if v == 5 {
        "7"@
    } else if v == 6 {
        "8"@
    } else if v == 7 {
        "9"@
    } else if v == 8 {
        "10"@
    } else if v == 9 {
        "J"@
    } else if v == 10 {
        "Q"@
    } else if v == 11 {
        "K"@
    } else {
        "A"@
    }
}

pub open spec fn spec_suit_text(s: int) -> Seq<char> {
    if s == 0 {
        "c"@
    } else if s == 1 {
        "d"@
    } else if s == 2 {
        "h"@
    } else {
        "s"@
    }
}

pub open spec fn spec_card_text(card_id: int) -> Seq<char> {
    spec_value_text(card_id % 13) + spec_suit_text(card_id / 13)
}

/// Formats a card id as value-then-suit text, e.g. the id 25 as `Ad`.
pub fn card_to_string(card_id: i64) -> (r: String)
    requires
        0 <= card_id <= 51,
    ensures
        r@ == spec_card_text(card_id as int),
{
    let value = card_id % 13;
    let suit = card_id / 13;

    let value_str: &str = if value == 0 {
        "2"
    } else if value == 1 {
        "3"
    } else if value == 2 {
        "4"
    } else if value == 3 {
        "5"
    } else if value == 4 {
        "6"
    } else if value == 5 {
        "7"
    } else if value == 6 {
        "8"
    } else if value == 7 {
        "9"
    } else if value == 8 {
        "10"
    } else if value == 9 {
        "J"
    } else if value == 10 {
        "Q"
    } else if value == 11 {
        "K"
    } else {
        "A"
    };
    let suit_str: &str = if suit == 0 {
        "c"
    } else if suit == 1 {
        "d"
    } else if suit == 2 {
        "h"
    } else {
        "s"
    };

    let mut out = value_str.to_owned();
    out.append(suit_str);
    out
}
} // verus!
