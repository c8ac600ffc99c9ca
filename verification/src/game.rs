//! Card-game value types: suits, ranks, cards, decks and the per-card
//! markers that the store holds as components.

use vstd::prelude::*;

verus! {

/// The four suits of a standard deck of cards.
#[derive(Debug, Clone, Copy, PartialEq, Eq, Structural)]
pub enum Suit {
    Clubs,
    Diamonds,
    Hearts,
    Spades,
}

/// Card values from Ace to King.
#[derive(Debug, Clone, Copy, PartialEq, Eq, PartialOrd, Ord, Structural)]
pub enum Rank {
    Ace,
    Two,
    Three,
    Four,
    Five,
    Six,
    Seven,
    Eight,
    Nine,
    Ten,
    Jack,
    Queen,
    King,
}

/// A playing card: a suit paired with a rank.
#[derive(Debug, Clone, Copy, PartialEq, Eq, Structural)]
pub struct Card {
    pub suit: Suit,
    pub rank: Rank,
}

impl Card {
    /// Create a new card with the given suit and rank.
    pub fn new(suit: Suit, rank: Rank) -> (c: Card)
        ensures
            c == (Card { suit, rank }),
    {
        Card { suit, rank }
    }
}

/// The pile a card belongs to on the solitaire board.
#[derive(Debug, Clone, Copy, PartialEq, Eq, Structural)]
pub enum Pile {
    /// The facedown stock pile that players draw cards from.
    Stock,
    /// The faceup waste pile where drawn cards go.
    Waste,
    /// One of the four foundation piles where cards are stacked by suit.
    Foundation(u8),
    /// One of the seven tableau piles used during play.
    Tableau(u8),
}

/// Marker for whether a card lies face up on the table.
#[derive(Debug, Clone, Copy, PartialEq, Eq, Structural)]
pub struct FaceUp(pub bool);

/// The suit at position `i` of the standard deck order.
pub open spec fn suit_index(i: int) -> Suit {
    if i == 0 {
        Suit::Clubs
    } else if i == 1 {
        Suit::Diamonds
    } else if i == 2 {
        Suit::Hearts
    } else {
        Suit::Spades
    }
}

/// The rank at position `i` of the standard deck order.
pub open spec fn rank_index(i: int) -> Rank {
    if i == 0 {
        Rank::Ace
    } else if i == 1 {
        Rank::Two
    } else if i == 2 {
        Rank::Three
    } else if i == 3 {
        Rank::Four
    } else if i == 4 {
        Rank::Five
    } else if i == 5 {
        Rank::Six
    } else if i == 6 {
        Rank::Seven
    } else if i == 7 {
        Rank::Eight
    } else if i == 8 {
        Rank::Nine
    } else if i == 9 {
        Rank::Ten
    } else if i == 10 {
        Rank::Jack
    } else if i == 11 {
        Rank::Queen
    } else {
        Rank::King
    }
}

/// The card at position `i` of a freshly built standard deck: suits in
/// blocks of thirteen, ranks cycling from Ace to King inside each block.
pub open spec fn standard_card(i: int) -> Card {
    Card { suit: suit_index(i / 13), rank: rank_index(i % 13) }
}

/// The suit of the `i`-th block of the standard order.
fn suit_at(i: usize) -> (s: Suit)
    requires
        i < 4,
    ensures
        s == suit_index(i as int),
{
    match i {
        0 => Suit::Clubs,
        1 => Suit::Diamonds,
        2 => Suit::Hearts,
        _ => Suit::Spades,
    }
}

/// The rank at offset `i` inside a block of the standard order.
fn rank_at(i: usize) -> (r: Rank)
    requires
        i < 13,
    ensures
        r == rank_index(i as int),
{
    match i {
        0 => Rank::Ace,
        1 => Rank::Two,
        2 => Rank::Three,
        3 => Rank::Four,
        4 => Rank::Five,
        5 => Rank::Six,
        6 => Rank::Seven,
        7 => Rank::Eight,
        8 => Rank::Nine,
        9 => Rank::Ten,
        10 => Rank::Jack,
        11 => Rank::Queen,
        _ => Rank::King,
    }
}

/// A deck of cards.
#[derive(Debug, Clone)]
pub struct Deck {
    pub cards: Vec<Card>,
}

impl Deck {
    /// Generate a full deck of 52 unique cards in order.
    pub fn standard() -> (d: Deck)
        ensures
            d.cards@.len() == 52,
            forall|i: int| 0 <= i < 52 ==> d.cards@[i] == standard_card(i),
    {
        let mut cards: Vec<Card> = Vec::new();
        let mut s: usize = 0;
        while s < 4
            invariant
                0 <= s <= 4,
                cards@.len() == s * 13,
                forall|i: int| 0 <= i < cards@.len() ==> cards@[i] == standard_card(i),
            decreases 4 - s,
        {
            let mut r: usize = 0;
            while r < 13
                invariant
                    0 <= s < 4,
                    0 <= r <= 13,
                    cards@.len() == s * 13 + r,
                    forall|i: int| 0 <= i < cards@.len() ==> cards@[i] == standard_card(i),
                decreases 13 - r,
            {
                let idx = cards.len();
                cards.push(Card::new(suit_at(s), rank_at(r)));
                proof {
                    assert(idx as int == s * 13 + r);
                    assert((s * 13 + r) / 13 == s && (s * 13 + r) % 13 == r) by (nonlinear_arith)
                        requires
                            0 <= s < 4,
                            0 <= r < 13,
                    ;
                }
                r = r + 1;
            }
            s = s + 1;
        }
        Deck { cards }
    }

    /// Shuffle the deck: afterwards it holds the same cards, in some order.
    pub fn shuffle(&mut self)
        ensures
            final(self).cards@.len() == old(self).cards@.len(),
            final(self).cards@.to_multiset() == old(self).cards@.to_multiset(),
    {
        shuffle_cards(&mut self.cards);
    }
}

/// Relies on `rand::seq::SliceRandom::shuffle` with `rand::thread_rng()`:
/// an in-place Fisher-Yates pass that only swaps elements of the slice, so
/// the slice afterwards holds the same cards in some order.
#[verifier::external_body]
fn shuffle_cards(cards: &mut Vec<Card>)
    ensures
        final(cards)@.len() == old(cards)@.len(),
        final(cards)@.to_multiset() == old(cards)@.to_multiset(),
{
    rand::seq::SliceRandom::shuffle(cards.as_mut_slice(), &mut rand::thread_rng());
}

} // verus!
