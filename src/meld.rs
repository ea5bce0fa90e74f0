//! A meld: cards of one suit, plus wild cards, never more wilds than naturals.
use vstd::prelude::*;
use crate::card::{Card, Suit};
use crate::errors::{MeldError, MeldErrorType};

verus! {

/// Number of wild cards in `s`.
pub open spec fn wild_count(s: Seq<Card>) -> nat
    decreases s.len(),
{
    if s.len() == 0 {
        0
    } else {
        wild_count(s.drop_last()) + if s.last().wild() { 1nat } else { 0nat }
    }
}

/// Number of non-wild cards in `s`.
pub open spec fn natural_count(s: Seq<Card>) -> nat {
    (s.len() - wild_count(s)) as nat
}

/// Sum of the point values of the cards of `s`.
pub open spec fn value_sum(s: Seq<Card>) -> nat
    decreases s.len(),
{
    if s.len() == 0 {
        0
    } else {
        value_sum(s.drop_last()) + s.last().value()
    }
}

/// Every card may stand in a meld keyed by `suit`: no Threes, and every
/// natural card is of that suit.
pub open spec fn fits_suit(s: Seq<Card>, suit: Suit) -> bool {
    forall|i: int| 0 <= i < s.len() ==> !(#[trigger] s[i]).three() && (s[i].normal() ==> s[i].suit == suit)
}

/// A legal set of meld cards for `suit`: non-empty, fitting the suit, and
/// with no more wild cards than natural ones.
pub open spec fn valid_meld(suit: Suit, s: Seq<Card>) -> bool {
    &&& s.len() > 0
    &&& fits_suit(s, suit)
    &&& wild_count(s) <= natural_count(s)
}

/// Bonus for a canasta (seven cards or more): 500 if natural, 300 if mixed.
pub open spec fn canasta_bonus(len: nat, natural: bool) -> nat {
    if len >= 7 {
        if natural { 500 } else { 300 }
    } else {
        0
    }
}

/// Value of a meld made of `s`.
pub open spec fn meld_value(s: Seq<Card>) -> nat {
    value_sum(s) + canasta_bonus(s.len(), wild_count(s) == 0)
}

pub proof fn lemma_wild_count_bound(s: Seq<Card>)
    ensures
        wild_count(s) <= s.len(),
    decreases s.len(),
{
    if s.len() > 0 {
        lemma_wild_count_bound(s.drop_last());
    }
}

pub proof fn lemma_value_sum_bound(s: Seq<Card>)
    ensures
        value_sum(s) <= 100 * s.len(),
    decreases s.len(),
{
    if s.len() > 0 {
        lemma_value_sum_bound(s.drop_last());
    }
}

/// Counting wilds and summing values distribute over concatenation.
pub proof fn lemma_counts_concat(a: Seq<Card>, b: Seq<Card>)
    ensures
        wild_count(a + b) == wild_count(a) + wild_count(b),
        value_sum(a + b) == value_sum(a) + value_sum(b),
    decreases b.len(),
{
    if b.len() == 0 {
        assert(a + b =~= a);
    } else {
        lemma_counts_concat(a, b.drop_last());
        assert((a + b).drop_last() =~= a + b.drop_last());
    }
}

pub proof fn lemma_counts_push(a: Seq<Card>, c: Card)
    ensures
        wild_count(a.push(c)) == wild_count(a) + if c.wild() { 1nat } else { 0nat },
        value_sum(a.push(c)) == value_sum(a) + c.value(),
{
    assert(a.push(c).drop_last() =~= a);
}

pub proof fn lemma_counts_remove(a: Seq<Card>, i: int)
    requires
        0 <= i < a.len(),
    ensures
        wild_count(a.remove(i)) + (if a[i].wild() { 1nat } else { 0nat }) == wild_count(a),
        value_sum(a.remove(i)) + a[i].value() == value_sum(a),
{
    let l = a.subrange(0, i);
    let r = a.subrange(i + 1, a.len() as int);
    assert(a.remove(i) =~= l + r);
    assert(a =~= l.push(a[i]) + r);
    lemma_counts_concat(l, r);
    lemma_counts_concat(l.push(a[i]), r);
    lemma_counts_push(l, a[i]);
}

/// Smallest number of cards that may be laid down as a new meld.
pub const MIN_MELD: usize = 3;

/// `s` may be laid down as a new meld: at least three cards, and valid for
/// the suit of its natural cards.
pub open spec fn valid_new_meld(s: Seq<Card>) -> bool {
    s.len() >= MIN_MELD && exists|i: int| 0 <= i < s.len() && (#[trigger] s[i]).normal() && valid_meld(s[i].suit, s)
}

/// Sum of the point values of `cards`.
pub fn total_value(cards: &Vec<Card>) -> (total: u128)
    ensures
        total as nat == value_sum(cards@),
        total <= 100 * (usize::MAX as nat),
{
    let mut total: u128 = 0;
    let mut i: usize = 0;
    while i < cards.len()
        invariant
            i <= cards.len(),
            total as nat == value_sum(cards@.subrange(0, i as int)),
            total <= 100 * i,
        decreases cards.len() - i,
    {
        proof {
            lemma_counts_push(cards@.subrange(0, i as int), cards@[i as int]);
            assert(cards@.subrange(0, i as int).push(cards@[i as int]) =~= cards@.subrange(0, i + 1));
        }
        total = total + cards[i].get_value() as u128;
        i = i + 1;
    }
    assert(cards@.subrange(0, i as int) =~= cards@);
    total
}

/// A committed or temporary meld. The suit is its grouping key.
#[derive(Debug)]
pub struct Meld {
    suit: Suit,
    cards: Vec<Card>,
    natural: bool,
    value: u128,
}

impl Meld {
    /// The suit that keys this meld.
    pub closed spec fn key(&self) -> Suit {
        self.suit
    }

    /// The cards of this meld, in the order they were added.
    pub closed spec fn cards_view(&self) -> Seq<Card> {
        self.cards@
    }

    pub closed spec fn natural_flag(&self) -> bool {
        self.natural
    }

    pub closed spec fn value_field(&self) -> nat {
        self.value as nat
    }

    /// Well-formedness: the cards form a valid meld for the key, `natural`
    /// holds exactly when no wild card is present, and the stored value is
    /// the meld's value.
    pub open spec fn wf(&self) -> bool {
        &&& valid_meld(self.key(), self.cards_view())
        &&& self.natural_flag() == (wild_count(self.cards_view()) == 0)
        &&& self.value_field() == meld_value(self.cards_view())
    }

    /// A stored value is at most a hundred points per card plus the bonus.
    pub proof fn lemma_value_bound(&self)
        requires
            self.wf(),
        ensures
            self.value_field() <= 100 * (usize::MAX as nat) + 500,
    {
        lemma_value_sum_bound(self.cards@);
        let n = self.cards@.len();
        assert(n == self.cards.len());
        assert(100 * n <= 100 * (usize::MAX as nat)) by (nonlinear_arith)
            requires n <= usize::MAX;
    }

    /// Adding the cards `s` keeps the meld valid.
    pub open spec fn accepts(&self, s: Seq<Card>) -> bool {
        valid_meld(self.key(), self.cards_view() + s)
    }

    pub fn count_wilds(cards: &Vec<Card>) -> (n: usize)
        ensures
            n as nat == wild_count(cards@),
    {
        let mut n: usize = 0;
        let mut i: usize = 0;
        while i < cards.len()
            invariant
                i <= cards.len(),
                n as nat == wild_count(cards@.subrange(0, i as int)),
                n <= i,
            decreases cards.len() - i,
        {
            proof {
                lemma_counts_push(cards@.subrange(0, i as int), cards@[i as int]);
                assert(cards@.subrange(0, i as int).push(cards@[i as int]) =~= cards@.subrange(0, i + 1));
            }
            if cards[i].is_wild() {
                n = n + 1;
            }
            i = i + 1;
        }
        assert(cards@.subrange(0, i as int) =~= cards@);
        n
    }

    /// Recomputes the stored value from the cards: the sum of their point
    /// values plus the canasta bonus.
    fn update_value(&mut self)
        requires
            old(self).natural_flag() == (wild_count(old(self).cards_view()) == 0),
        ensures
            final(self).cards_view() == old(self).cards_view(),
            final(self).key() == old(self).key(),
            final(self).natural_flag() == old(self).natural_flag(),
            final(self).value_field() == meld_value(final(self).cards_view()),
    {
        let mut total = total_value(&self.cards);
        if self.cards.len() >= 7 {
            if self.natural {
                total = total + 500;
            } else {
                total = total + 300;
            }
        }
        self.value = total;
    }

    /// Founds a meld on one natural card. A wild card or a Three is refused
    /// and handed back in the error.
    pub fn new(card: Card) -> (r: Result<Meld, MeldError>)
        ensures
            r is Ok <==> card.normal(),
            r matches Ok(m) ==> m.wf() && m.key() == card.suit && m.cards_view() == seq![card],
            r matches Err(e) ==> e.error_type == MeldErrorType::InvalidCard(card),
    {
        if !card.is_normal() {
            return Err(MeldError::invalid_card("A meld must be founded on a natural card", card));
        }
        let mut cards: Vec<Card> = Vec::new();
        cards.push(card);
        let mut m = Meld { suit: card.suit, cards, natural: true, value: 0 };
        proof {
            lemma_counts_push(Seq::empty(), card);
            assert(seq![card] =~= Seq::<Card>::empty().push(card));
        }
        m.update_value();
        Ok(m)
    }

    /// Lays down `cards` as a meld keyed by `suit`, or hands them back
    /// unchanged when they do not form a valid meld for that suit.
    pub fn from_cards(suit: Suit, cards: Vec<Card>) -> (r: Result<Meld, Vec<Card>>)
        ensures
            r is Ok <==> valid_meld(suit, cards@),
            r matches Ok(m) ==> m.wf() && m.key() == suit && m.cards_view() == cards@,
            r matches Err(back) ==> back@ == cards@,
    {
        if cards.len() == 0 || !Meld::fits(&cards, suit) {
            return Err(cards);
        }
        let wilds = Meld::count_wilds(&cards);
        proof {
            lemma_wild_count_bound(cards@);
        }
        if wilds > cards.len() - wilds {
            return Err(cards);
        }
        let mut m = Meld { suit, cards, natural: wilds == 0, value: 0 };
        m.update_value();
        Ok(m)
    }

    /// Adds one card. A Three, a natural card of another suit, or a wild card
    /// that would leave as many wilds as natural cards is refused and handed
    /// back in the error, and the meld is unchanged.
    pub fn add(&mut self, card: Card) -> (r: Result<(), MeldError>)
        requires
            old(self).wf(),
        ensures
            final(self).wf(),
            r is Ok <==> old(self).accepts(seq![card]),
            r is Ok ==> final(self).key() == old(self).key()
                && final(self).cards_view() == old(self).cards_view().push(card),
            r is Err ==> *final(self) == *old(self),
            r matches Err(e) ==> e.card() == Some(card)
                && (e.error_type == MeldErrorType::TooManyWilds(card) <==> card.wild()),
    {
        let ghost s = self.cards@;
        proof {
            lemma_counts_push(s, card);
            lemma_wild_count_bound(s);
            assert(s + seq![card] =~= s.push(card));
            assert(s.push(card)[s.len() as int] == card);
        }
        if card.is_three() {
            return Err(MeldError::invalid_card("A Three cannot join a meld", card));
        }
        if card.is_wild() {
            let wilds = Meld::count_wilds(&self.cards);
            if wilds >= self.cards.len() - wilds {
                return Err(MeldError::too_many_wilds("Too many wilds in meld", card));
            }
            self.natural = false;
        } else if card.suit != self.suit {
            return Err(MeldError::invalid_card("Only cards of the meld's suit can be added", card));
        }
        self.cards.push(card);
        proof {
            assert forall|i: int| 0 <= i < self.cards@.len() implies !(#[trigger] self.cards@[i]).three()
                && (self.cards@[i].normal() ==> self.cards@[i].suit == self.suit) by {
                if i < s.len() {
                    assert(self.cards@[i] == s[i]);
                }
            }
        }
        self.update_value();
        Ok(())
    }

    fn fits(cards: &Vec<Card>, suit: Suit) -> (b: bool)
        ensures
            b == fits_suit(cards@, suit),
    {
        let mut i: usize = 0;
        while i < cards.len()
            invariant
                i <= cards.len(),
                fits_suit(cards@.subrange(0, i as int), suit),
            decreases cards.len() - i,
        {
            let c = cards[i];
            if c.is_three() || (c.is_normal() && c.suit != suit) {
                assert(!fits_suit(cards@, suit) ) by {
                    assert(cards@[i as int] == c);
                }
                return false;
            }
            assert forall|k: int| 0 <= k < i + 1 implies !(#[trigger] cards@.subrange(0, i + 1)[k]).three()
                && (cards@.subrange(0, i + 1)[k].normal() ==> cards@.subrange(0, i + 1)[k].suit == suit) by {
                if k < i {
                    assert(cards@.subrange(0, i + 1)[k] == cards@.subrange(0, i as int)[k]);
                }
            }
            i = i + 1;
        }
        assert(cards@.subrange(0, i as int) =~= cards@);
        true
    }

    /// Adds all of `cards`, or none. When the cards could not all join (a
    /// Three, a natural card of another suit, or too many wilds in total),
    /// they are handed back as they came and the meld is unchanged.
    pub fn add_cards(&mut self, cards: Vec<Card>) -> (r: Result<(), Vec<Card>>)
        requires
            old(self).wf(),
        ensures
            final(self).wf(),
            r is Ok <==> old(self).accepts(cards@),
            r is Ok ==> final(self).key() == old(self).key()
                && final(self).cards_view() == old(self).cards_view() + cards@,
            r matches Err(back) ==> back@ == cards@ && *final(self) == *old(self),
    {
        let ghost s = self.cards@;
        proof {
            lemma_counts_concat(s, cards@);
            lemma_wild_count_bound(s);
            lemma_wild_count_bound(cards@);
            assert forall|k: int| 0 <= k < cards@.len() implies (s + cards@)[s.len() + k] == cards@[k] by {}
            assert forall|k: int| 0 <= k < s.len() implies (s + cards@)[k] == s[k] by {}
        }
        if !Meld::fits(&cards, self.suit) {
            proof {
                let k = choose|k: int| 0 <= k < cards@.len() && !(!(#[trigger] cards@[k]).three()
                    && (cards@[k].normal() ==> cards@[k].suit == self.suit));
                assert((s + cards@)[s.len() + k] == cards@[k]);
            }
            return Err(cards);
        }
        let old_wilds = Meld::count_wilds(&self.cards);
        let new_wilds = Meld::count_wilds(&cards);
        let wilds = old_wilds as u128 + new_wilds as u128;
        let total = self.cards.len() as u128 + cards.len() as u128;
        if wilds > total - wilds {
            return Err(cards);
        }
        let mut cards = cards;
        let ghost added = cards@;
        self.cards.append(&mut cards);
        self.natural = self.natural && new_wilds == 0;
        proof {
            assert(self.cards@ =~= s + added);
        }
        self.update_value();
        Ok(())
    }

    /// Merges `other`, a meld of the same suit, into this one. A meld of
    /// another suit is handed back and this meld is unchanged.
    pub fn combine(&mut self, other: Meld) -> (r: Result<(), Meld>)
        requires
            old(self).wf(),
            other.wf(),
        ensures
            final(self).wf(),
            r is Ok <==> old(self).key() == other.key(),
            r is Ok ==> final(self).key() == old(self).key()
                && final(self).cards_view() == old(self).cards_view() + other.cards_view(),
            r matches Err(back) ==> back == other && *final(self) == *old(self),
    {
        if self.suit != other.suit {
            return Err(other);
        }
        let ghost s = self.cards@;
        let ghost o = other.cards@;
        proof {
            lemma_counts_concat(s, o);
            lemma_wild_count_bound(s);
            lemma_wild_count_bound(o);
            assert forall|k: int| 0 <= k < (s + o).len() implies !(#[trigger] (s + o)[k]).three()
                && ((s + o)[k].normal() ==> (s + o)[k].suit == self.suit) by {
                if k < s.len() {
                    assert((s + o)[k] == s[k]);
                } else {
                    assert((s + o)[k] == o[k - s.len()]);
                }
            }
        }
        let natural = other.natural;
        let mut more = other.cards;
        self.cards.append(&mut more);
        self.natural = self.natural && natural;
        proof {
            assert(self.cards@ =~= s + o);
        }
        self.update_value();
        Ok(())
    }

    /// Takes out the card at `index`. Refused when there is no card there, or
    /// when the remaining cards would no longer form a valid meld (none left,
    /// or more wilds than natural cards); the meld is then unchanged.
    pub fn remove(&mut self, index: usize) -> (r: Result<Card, MeldError>)
        requires
            old(self).wf(),
        ensures
            final(self).wf(),
            r is Ok <==> index < old(self).cards_view().len()
                && valid_meld(old(self).key(), old(self).cards_view().remove(index as int)),
            r matches Ok(c) ==> c == old(self).cards_view()[index as int]
                && final(self).key() == old(self).key()
                && final(self).cards_view() == old(self).cards_view().remove(index as int),
            r matches Err(e) ==> e.error_type == MeldErrorType::InvalidIndex && *final(self) == *old(self),
    {
        if index >= self.cards.len() {
            return Err(MeldError::invalid_index("Index out of bounds"));
        }
        let ghost s = self.cards@;
        let c = self.cards[index];
        proof {
            lemma_counts_remove(s, index as int);
            lemma_wild_count_bound(s);
            assert forall|k: int| 0 <= k < s.len() - 1 implies (#[trigger] s.remove(index as int)[k]) == s[if k < index { k } else { k + 1 }] by {}
        }
        let wilds = Meld::count_wilds(&self.cards);
        let left_wilds = if c.is_wild() { wilds - 1 } else { wilds };
        let left = self.cards.len() - 1;
        if left == 0 || left_wilds > left - left_wilds {
            return Err(MeldError::invalid_index("Removing this card would leave an invalid meld"));
        }
        let removed = self.cards.remove(index);
        self.natural = left_wilds == 0;
        self.update_value();
        Ok(removed)
    }

    /// Dissolves the meld and returns its cards.
    pub fn clear(self) -> (r: Vec<Card>)
        ensures
            r@ == self.cards_view(),
    {
        self.cards
    }

    pub fn get_cards(&self) -> (r: &Vec<Card>)
        ensures
            r@ == self.cards_view(),
    {
        &self.cards
    }

    pub fn get_suit(&self) -> (s: Suit)
        ensures
            s == self.key(),
    {
        self.suit
    }

    pub fn get_value(&self) -> (v: u128)
        ensures
            v as nat == self.value_field(),
    {
        self.value
    }

    pub fn is_natural(&self) -> (b: bool)
        ensures
            b == self.natural_flag(),
    {
        self.natural
    }

    /// Whether `cards`, together with `extra` when given, may be laid down as
    /// a new meld.
    pub fn is_valid(cards: &Vec<Card>, extra: Option<Card>) -> (b: bool)
        ensures
            b == valid_new_meld(match extra {
                Some(c) => cards@.push(c),
                None => cards@,
            }),
    {
        let mut all: Vec<Card> = Vec::new();
        let mut i: usize = 0;
        while i < cards.len()
            invariant
                i <= cards.len(),
                all@ == cards@.subrange(0, i as int),
            decreases cards.len() - i,
        {
            all.push(cards[i]);
            i = i + 1;
            assert(all@ =~= cards@.subrange(0, i as int));
        }
        assert(all@ =~= cards@);
        if let Some(c) = extra {
            all.push(c);
        }
        assert(all@ == match extra {
            Some(c) => cards@.push(c),
            None => cards@,
        });
        if all.len() < MIN_MELD {
            return false;
        }
        let mut j: usize = 0;
        while j < all.len()
            invariant
                j <= all.len(),
                all.len() >= MIN_MELD,
                all@ == match extra {
                    Some(c) => cards@.push(c),
                    None => cards@,
                },
                forall|k: int| 0 <= k < j ==> !(#[trigger] all@[k]).normal(),
            decreases all.len() - j,
        {
            if all[j].is_normal() {
                let suit = all[j].suit;
                if !Meld::fits(&all, suit) {
                    proof {
                        assert forall|k: int| 0 <= k < all@.len() && (#[trigger] all@[k]).normal()
                            implies !valid_meld(all@[k].suit, all@) by {
                            if valid_meld(all@[k].suit, all@) {
                                assert(all@[j as int].suit == all@[k].suit);
                            }
                        }
                    }
                    return false;
                }
                let wilds = Meld::count_wilds(&all);
                proof { lemma_wild_count_bound(all@); }
                let ok = wilds <= all.len() - wilds;
                proof {
                    if !ok {
                        assert forall|k: int| 0 <= k < all@.len() && (#[trigger] all@[k]).normal()
                            implies !valid_meld(all@[k].suit, all@) by {}
                    } else {
                        assert(all@[j as int].normal() && valid_meld(all@[j as int].suit, all@));
                    }
                }
                return ok;
            }
            j = j + 1;
        }
        false
    }

    /// Whether `cards` together with the top of the discard pile may be laid
    /// down as a new meld: the top card must be natural.
    pub fn can_take_pack(cards: &Vec<Card>, discard: &Card) -> (b: bool)
        ensures
            b == (discard.normal() && valid_new_meld(cards@.push(*discard))),
    {
        if !discard.is_normal() {
            return false;
        }
        Meld::is_valid(cards, Some(*discard))
    }
}

} // verus!
