//! Card values: rank, suit, stable id, point value and classification.
use vstd::prelude::*;

verus! {

/// Card ranks, in their natural order.
#[derive(Clone, Copy, Debug, PartialEq, Eq, Structural, PartialOrd, Ord, Hash)]
pub enum Rank {
    Ace,
    Two,
    Three,
    Four,
    Five,
    Six,
    Seven,
    Eight,
    Nine,
    Ten,
    Jack,
    Queen,
    King,
    Joker,
}

/// The four suits. Melds are grouped by suit.
#[derive(Clone, Copy, Debug, PartialEq, Eq, Structural, Hash)]
pub enum Suit {
    Hearts,
    Diamonds,
    Spades,
    Clubs,
}

/// An immutable card. `id` is assigned once when the deck is built and is the
/// only handle by which a card is named in hands, piles and melds.
#[derive(Clone, Copy, Debug, PartialEq, Eq, Structural)]
pub struct Card {
    pub id: usize,
    pub rank: Rank,
    pub suit: Suit,
}

pub open spec fn suit_is_red(s: Suit) -> bool {
    s == Suit::Hearts || s == Suit::Diamonds
}

/// Point value of a card of rank `r` and suit `s`.
pub open spec fn card_value(r: Rank, s: Suit) -> nat {
    match r {
        Rank::Ace | Rank::Two => 20,
        Rank::Three => if suit_is_red(s) { 100 } else { 5 },
        Rank::Four | Rank::Five | Rank::Six | Rank::Seven => 5,
        Rank::Joker => 50,
        _ => 10,
    }
}

impl Card {
    pub open spec fn value(self) -> nat {
        card_value(self.rank, self.suit)
    }

    /// Twos and Jokers are wild.
    pub open spec fn wild(self) -> bool {
        self.rank == Rank::Two || self.rank == Rank::Joker
    }

    /// Threes are special: never wild, never meldable.
    pub open spec fn three(self) -> bool {
        self.rank == Rank::Three
    }

    /// Ace and Four to King: cards that can found or join a meld of their suit.
    pub open spec fn normal(self) -> bool {
        !self.wild() && !self.three()
    }

    pub open spec fn red_three(self) -> bool {
        self.three() && suit_is_red(self.suit)
    }

    pub fn new(id: usize, rank: Rank, suit: Suit) -> (c: Card)
        ensures
            c.id == id,
            c.rank == rank,
            c.suit == suit,
    {
        Card { id, rank, suit }
    }

    pub fn get_value(&self) -> (v: u8)
        ensures
            v as nat == self.value(),
    {
        match self.rank {
            Rank::Ace | Rank::Two => 20,
            Rank::Three => match self.suit {
                Suit::Hearts | Suit::Diamonds => 100,
                Suit::Spades | Suit::Clubs => 5,
            },
            Rank::Four | Rank::Five | Rank::Six | Rank::Seven => 5,
            Rank::Joker => 50,
            _ => 10,
        }
    }

    pub fn get_rank(&self) -> (r: Rank)
        ensures
            r == self.rank,
    {
        self.rank
    }

    pub fn get_suit(&self) -> (s: Suit)
        ensures
            s == self.suit,
    {
        self.suit
    }

    pub fn get_id(&self) -> (i: usize)
        ensures
            i == self.id,
    {
        self.id
    }

    pub fn is_wild(&self) -> (b: bool)
        ensures
            b == self.wild(),
    {
        match self.rank {
            Rank::Two | Rank::Joker => true,
            _ => false,
        }
    }

    pub fn is_three(&self) -> (b: bool)
        ensures
            b == self.three(),
    {
        match self.rank {
            Rank::Three => true,
            _ => false,
        }
    }

    pub fn is_normal(&self) -> (b: bool)
        ensures
            b == self.normal(),
    {
        match self.rank {
            Rank::Two | Rank::Three | Rank::Joker => false,
            _ => true,
        }
    }

    pub fn is_red_three(&self) -> (b: bool)
        ensures
            b == self.red_three(),
    {
        match (self.rank, self.suit) {
            (Rank::Three, Suit::Hearts) | (Rank::Three, Suit::Diamonds) => true,
            _ => false,
        }
    }
}

/// A copy of `cards`.
pub fn copy_cards(cards: &Vec<Card>) -> (r: Vec<Card>)
    ensures
        r@ == cards@,
{
    let mut r: Vec<Card> = Vec::new();
    let mut i: usize = 0;
    while i < cards.len()
        invariant
            i <= cards.len(),
            r@ == cards@.subrange(0, i as int),
        decreases cards.len() - i,
    {
        r.push(cards[i]);
        i = i + 1;
        assert(r@ =~= cards@.subrange(0, i as int));
    }
    assert(r@ =~= cards@);
    r
}

} // verus!
