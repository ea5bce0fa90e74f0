//! Building the deck: complete packs plus Jokers, each card with a unique id.
use vstd::prelude::*;
use rand::seq::SliceRandom;
use crate::card::{Card, Rank, Suit};

verus! {

/// Cards of one pack without Jokers.
pub const PACK_SIZE: usize = 52;

/// The rank at position `k` of a suit in a fresh pack (Ace to King).
pub open spec fn rank_at(k: int) -> Rank {
    if k == 0 { Rank::Ace }
    else if k == 1 { Rank::Two }
    else if k == 2 { Rank::Three }
    else if k == 3 { Rank::Four }
    else if k == 4 { Rank::Five }
    else if k == 5 { Rank::Six }
    else if k == 6 { Rank::Seven }
    else if k == 7 { Rank::Eight }
    else if k == 8 { Rank::Nine }
    else if k == 9 { Rank::Ten }
    else if k == 10 { Rank::Jack }
    else if k == 11 { Rank::Queen }
    else { Rank::King }
}

/// The suit of block `k` of a fresh pack.
pub open spec fn suit_at(k: int) -> Suit {
    if k == 0 { Suit::Hearts }
    else if k == 1 { Suit::Diamonds }
    else if k == 2 { Suit::Spades }
    else { Suit::Clubs }
}

/// The card with id `i` of an unshuffled deck whose first `standard` cards
/// are complete packs and whose remaining cards are Jokers.
pub open spec fn fresh_card(i: int, standard: int) -> Card {
    if i < standard {
        Card { id: i as usize, rank: rank_at(i % 13), suit: suit_at((i / 13) % 4) }
    } else {
        Card { id: i as usize, rank: Rank::Joker, suit: suit_at((i - standard) % 4) }
    }
}

/// The unshuffled deck of `num_packs` packs and `jokers` Jokers: card `i`
/// has id `i`.
pub open spec fn fresh_deck(num_packs: nat, jokers: nat) -> Seq<Card> {
    Seq::new(num_packs * 52 + jokers, |i: int| fresh_card(i, (num_packs * 52) as int))
}

fn rank_of(k: usize) -> (r: Rank)
    requires
        k < 13,
    ensures
        r == rank_at(k as int),
{
    match k {
        0 => Rank::Ace,
        1 => Rank::Two,
        2 => Rank::Three,
        3 => Rank::Four,
        4 => Rank::Five,
        5 => Rank::Six,
        6 => Rank::Seven,
        7 => Rank::Eight,
        8 => Rank::Nine,
        9 => Rank::Ten,
        10 => Rank::Jack,
        11 => Rank::Queen,
        _ => Rank::King,
    }
}

fn suit_of(k: usize) -> (s: Suit)
    requires
        k < 4,
    ensures
        s == suit_at(k as int),
{
    match k {
        0 => Suit::Hearts,
        1 => Suit::Diamonds,
        2 => Suit::Spades,
        _ => Suit::Clubs,
    }
}

/// The deck of `num_packs` complete packs followed by `jokers` Jokers, in
/// order, ids counting up from zero.
pub fn standard_deck(num_packs: u8, jokers: u8) -> (deck: Vec<Card>)
    ensures
        deck@ == fresh_deck(num_packs as nat, jokers as nat),
{
    let standard: usize = num_packs as usize * PACK_SIZE;
    let total: usize = standard + jokers as usize;
    let mut deck: Vec<Card> = Vec::new();
    let mut i: usize = 0;
    while i < total
        invariant
            standard == num_packs * 52,
            total == standard + jokers,
            i <= total,
            deck@ == fresh_deck(num_packs as nat, jokers as nat).subrange(0, i as int),
        decreases total - i,
    {
        let c = if i < standard {
            Card::new(i, rank_of(i % 13), suit_of((i / 13) % 4))
        } else {
            Card::new(i, Rank::Joker, suit_of((i - standard) % 4))
        };
        deck.push(c);
        i = i + 1;
        assert(deck@ =~= fresh_deck(num_packs as nat, jokers as nat).subrange(0, i as int));
    }
    assert(deck@ =~= fresh_deck(num_packs as nat, jokers as nat));
    deck
}

/// Relies on rand's `SliceRandom::shuffle` with the thread-local generator:
/// it reorders the slice in place by swaps, so the same cards remain.
#[verifier::external_body]
fn shuffle_cards(deck: &mut Vec<Card>)
    ensures
        final(deck)@.to_multiset() == old(deck)@.to_multiset(),
{
    let mut rng = rand::thread_rng();
    deck.shuffle(&mut rng);
}

/// A shuffled deck of `num_packs` packs and `jokers` Jokers.
pub fn make_deck(num_packs: u8, jokers: u8) -> (deck: Vec<Card>)
    ensures
        deck@.to_multiset() == fresh_deck(num_packs as nat, jokers as nat).to_multiset(),
{
    let mut deck = standard_deck(num_packs, jokers);
    shuffle_cards(&mut deck);
    deck
}

} // verus!
