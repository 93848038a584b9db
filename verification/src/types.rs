//! The data model: cards, hands, ledger entries, actions, states, outcomes.

use vstd::prelude::*;
use vstd::string::StringExecFns;

verus! {

/// Identifier of a hand or of a table: the 128-bit value of a UUID.
///
/// A table, its deck and its dealer's hand share one identifier.
pub type Id = u128;

/// The suit of a card.
#[derive(Clone, Copy, Debug, PartialEq, Eq, Structural)]
pub enum Suit {
    Hearts,
    Diamonds,
    Clubs,
    Spades,
}

/// The rank of a card: an ace, a face card, or a numeric card with its face value.
#[derive(Clone, Copy, Debug, PartialEq, Eq, Structural)]
pub enum CardValue {
    Ace,
    King,
    Queen,
    Jack,
    Value(u8),
}

/// A playing card.
#[derive(Clone, Copy, Debug, PartialEq, Eq, Structural)]
pub struct Card {
    pub suit: Suit,
    pub value: CardValue,
}

/// The decimal digit `d` as a character.
pub open spec fn digit_char(d: int) -> char {
    if d == 0 {
        '0'
    } else if d == 1 {
        '1'
    } else if d == 2 {
        '2'
    } else if d == 3 {
        '3'
    } else if d == 4 {
        '4'
    } else if d == 5 {
        '5'
    } else if d == 6 {
        '6'
    } else if d == 7 {
        '7'
    } else if d == 8 {
        '8'
    } else {
        '9'
    }
}

/// The decimal numeral of `n`, without leading zeros.
pub open spec fn decimal_text(n: nat) -> Seq<char>
    decreases n,
{
    if n < 10 {
        seq![digit_char(n as int)]
    } else {
        decimal_text(n / 10).push(digit_char((n % 10) as int))
    }
}

/// The one-letter name of a suit.
pub open spec fn suit_text(suit: Suit) -> Seq<char> {
    match suit {
        Suit::Hearts => seq!['H'],
        Suit::Diamonds => seq!['D'],
        Suit::Clubs => seq!['C'],
        Suit::Spades => seq!['S'],
    }
}

/// The short name of a rank: a letter for an ace or a face card, the
/// numeral for a numeric card.
pub open spec fn value_text(value: CardValue) -> Seq<char> {
    match value {
        CardValue::Ace => seq!['A'],
        CardValue::King => seq!['K'],
        CardValue::Queen => seq!['Q'],
        CardValue::Jack => seq!['J'],
        CardValue::Value(v) => decimal_text(v as nat),
    }
}

/// The name of a card: `Card [` and `]` around its suit and its rank.
pub open spec fn card_text(card: Card) -> Seq<char> {
    seq!['C', 'a', 'r', 'd', ' ', '['] + suit_text(card.suit) + value_text(card.value) + seq![']']
}

fn digit_text(d: u8) -> (text: &'static str)
    requires
        d < 10,
    ensures
        text@ == seq![digit_char(d as int)],
{
    proof {
        reveal_strlit("0");
        reveal_strlit("1");
        reveal_strlit("2");
        reveal_strlit("3");
        reveal_strlit("4");
        reveal_strlit("5");
        reveal_strlit("6");
        reveal_strlit("7");
        reveal_strlit("8");
        reveal_strlit("9");
    }
    let text = if d == 0 {
        "0"
    } else if d == 1 {
        "1"
    } else if d == 2 {
        "2"
    } else if d == 3 {
        "3"
    } else if d == 4 {
        "4"
    } else if d == 5 {
        "5"
    } else if d == 6 {
        "6"
    } else if d == 7 {
        "7"
    } else if d == 8 {
        "8"
    } else {
        "9"
    };
    assert(text@ =~= seq![digit_char(d as int)]);
    text
}

impl Suit {
    /// The one-letter name of the suit.
    pub fn to_string(&self) -> (text: String)
        ensures
            text@ == suit_text(*self),
    {
        proof {
            reveal_strlit("H");
            reveal_strlit("D");
            reveal_strlit("C");
            reveal_strlit("S");
        }
        let text = match self {
            Suit::Hearts => String::from_str("H"),
            Suit::Diamonds => String::from_str("D"),
            Suit::Clubs => String::from_str("C"),
            Suit::Spades => String::from_str("S"),
        };
        assert(text@ =~= suit_text(*self));
        text
    }
}

impl CardValue {
    /// The short name of the rank.
    pub fn to_string(&self) -> (text: String)
        ensures
            text@ == value_text(*self),
    {
        proof {
            reveal_strlit("A");
            reveal_strlit("K");
            reveal_strlit("Q");
            reveal_strlit("J");
        }
        let text = match self {
            CardValue::Ace => String::from_str("A"),
            CardValue::King => String::from_str("K"),
            CardValue::Queen => String::from_str("Q"),
            CardValue::Jack => String::from_str("J"),
            CardValue::Value(v) => {
                let n: u8 = *v;
                let mut digits = String::new();
                if n >= 100 {
                    digits.append(digit_text(n / 100));
                }
                if n >= 10 {
                    digits.append(digit_text((n / 10) % 10));
                }
                digits.append(digit_text(n % 10));
                proof {
                    reveal_with_fuel(decimal_text, 3);
                    assert(digits@ =~= decimal_text(n as nat));
                }
                digits
            },
        };
        assert(text@ =~= value_text(*self));
        text
    }
}

impl Card {
    /// The card of the given suit and rank.
    pub fn new(suit: Suit, value: CardValue) -> (card: Card)
        ensures
            card == (Card { suit, value }),
    {
        Card { suit, value }
    }

    /// The name of the card, such as `Card [H10]`.
    pub fn to_string(&self) -> (text: String)
        ensures
            text@ == card_text(*self),
    {
        proof {
            reveal_strlit("Card [");
            reveal_strlit("]");
        }
        let mut text = String::from_str("Card [");
        let suit = self.suit.to_string();
        let value = self.value.to_string();
        text.append(suit.as_str());
        text.append(value.as_str());
        text.append("]");
        assert(text@ =~= card_text(*self));
        text
    }
}

/// An ordered sequence of cards, indexed by position and never mutated:
/// drawing a card records an allocation, it removes nothing.
pub type Deck = Vec<Card>;

/// A seat at a table. The dealer's own hand has `id == player == dealer`.
#[derive(Clone, Copy, Debug, PartialEq, Eq, Structural)]
pub struct Hand {
    pub id: Id,
    pub player: Id,
    pub dealer: Id,
}

/// One ledger entry: `hand` holds the card at `card_idx` of the deck of table `dealer`.
#[derive(Clone, Copy, Debug, PartialEq, Eq, Structural)]
pub struct CardAllocation {
    pub hand: Id,
    pub dealer: Id,
    pub card_idx: usize,
}

/// One seat in the turn order of table `game_id`.
#[derive(Clone, Copy, Debug, PartialEq, Eq, Structural)]
pub struct Sequence {
    pub game_id: Id,
    pub hand_id: Id,
}

/// What a hand decides when it has the turn: to draw a card or to stand.
#[derive(Clone, Copy, Debug, PartialEq, Eq, Structural)]
pub enum Action {
    Hit,
    Hold,
}

/// The state of a hand that is no longer active. There is no variant for an
/// active hand: a hand is active exactly when no state is recorded for it.
#[derive(Clone, Copy, Debug, PartialEq, Eq, Structural)]
pub enum State {
    Holding(u8),
    Bust(u8),
    BlackJack,
}

/// A pending decision of a hand.
pub type HandAction = (Id, Action);

/// The recorded state of a hand: the hand, its table, the state.
pub type HandState = (Id, Id, State);

/// How a hand fared against its dealer, with the value it is reported with.
#[derive(Clone, Copy, Debug, PartialEq, Eq, Structural)]
pub enum Outcome {
    Won(u8),
    Lost(u8),
}

/// The outcome of a hand against its table's dealer.
pub type HandOutcome = (Id, Outcome);

/// Why an action or a query could not be resolved.
#[derive(Clone, Copy, Debug, PartialEq, Eq, Structural)]
pub enum ActionResolutionError {
    /// No hand is registered under the identifier.
    MissingHand,
    /// No deck is registered for the table.
    MissingDeck,
    /// A hand holds a card position past the end of its table's deck.
    DeckExhausted,
    /// A score or a count does not fit its machine type.
    Overflow,
    /// The identifier is already taken by a hand or a table.
    IdInUse,
    /// The table has begun play, or every hand at it has its state: its
    /// deck and its seats are fixed.
    GameStarted,
}

} // verus!
