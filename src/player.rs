//! A player: hand, melds (one slot per suit), red threes laid aside, a
//! temporary meld under construction, and the turn phase.
use vstd::prelude::*;
use vstd::multiset::Multiset;
use crate::card::{Card, Suit};
use crate::errors::{TempMeldError, TempMeldType, TurnError, TurnErrorType};
use crate::meld::{total_value, valid_meld, value_sum, Meld, MIN_MELD};

verus! {

broadcast use {
    vstd::seq_lib::group_to_multiset_ensures,
    vstd::multiset::group_multiset_axioms,
    vstd::seq_lib::lemma_multiset_commutative,
};

/// Where a player stands in the turn cycle.
#[derive(Clone, Copy, Debug, PartialEq, Eq, Structural)]
pub enum TurnPhase {
    /// Not this player's turn.
    Not,
    /// Must draw, or take the pack, before anything else.
    Draw,
    /// Has drawn: may meld any number of times, then must throw.
    Throw,
}

/// Number of meld slots: one per suit.
pub const SLOTS: usize = 4;

/// The slot of the meld keyed by `s`.
pub open spec fn suit_slot(s: Suit) -> int {
    match s {
        Suit::Hearts => 0,
        Suit::Diamonds => 1,
        Suit::Spades => 2,
        Suit::Clubs => 3,
    }
}

fn slot_of(s: Suit) -> (k: usize)
    ensures
        k as int == suit_slot(s),
{
    match s {
        Suit::Hearts => 0,
        Suit::Diamonds => 1,
        Suit::Spades => 2,
        Suit::Clubs => 3,
    }
}

/// The cards held in an optional meld.
pub open spec fn opt_cards(m: Option<Meld>) -> Multiset<Card> {
    match m {
        Some(m) => m.cards_view().to_multiset(),
        None => Multiset::empty(),
    }
}

/// The value of an optional meld.
pub open spec fn opt_value(m: Option<Meld>) -> nat {
    match m {
        Some(m) => m.value_field(),
        None => 0,
    }
}

/// All the cards held in a sequence of meld slots.
pub open spec fn slots_cards(ms: Seq<Option<Meld>>) -> Multiset<Card>
    decreases ms.len(),
{
    if ms.len() == 0 {
        Multiset::empty()
    } else {
        slots_cards(ms.drop_last()).add(opt_cards(ms.last()))
    }
}

/// The total value of a sequence of meld slots.
pub open spec fn slots_value(ms: Seq<Option<Meld>>) -> nat
    decreases ms.len(),
{
    if ms.len() == 0 {
        0
    } else {
        slots_value(ms.drop_last()) + opt_value(ms.last())
    }
}

/// Number of red threes in `s`.
pub open spec fn red_three_count(s: Seq<Card>) -> nat
    decreases s.len(),
{
    if s.len() == 0 {
        0
    } else {
        red_three_count(s.drop_last()) + if s.last().red_three() { 1nat } else { 0nat }
    }
}

/// The red threes of `s`, in order.
pub open spec fn red_threes_of(s: Seq<Card>) -> Seq<Card> {
    s.filter(|c: Card| c.red_three())
}

/// The cards of `s` that are not red threes, in order.
pub open spec fn others_of(s: Seq<Card>) -> Seq<Card> {
    s.filter(|c: Card| !c.red_three())
}

pub proof fn lemma_red_threes_push(s: Seq<Card>, c: Card)
    ensures
        red_threes_of(s.push(c)) == if c.red_three() { red_threes_of(s).push(c) } else { red_threes_of(s) },
        others_of(s.push(c)) == if c.red_three() { others_of(s) } else { others_of(s).push(c) },
{
    s.lemma_filter_push(c, |c: Card| c.red_three());
    s.lemma_filter_push(c, |c: Card| !c.red_three());
}

pub proof fn lemma_red_threes_concat(a: Seq<Card>, b: Seq<Card>)
    ensures
        red_threes_of(a + b) == red_threes_of(a) + red_threes_of(b),
        others_of(a + b) == others_of(a) + others_of(b),
    decreases b.len(),
{
    if b.len() == 0 {
        assert(a + b =~= a);
        assert(red_threes_of(b) =~= Seq::<Card>::empty());
        assert(others_of(b) =~= Seq::<Card>::empty());
        assert(red_threes_of(a + b) =~= red_threes_of(a) + red_threes_of(b));
        assert(others_of(a + b) =~= others_of(a) + others_of(b));
    } else {
        let d = b.drop_last();
        let x = b.last();
        lemma_red_threes_concat(a, d);
        assert(a + b =~= (a + d).push(x));
        assert(b =~= d.push(x));
        lemma_red_threes_push(a + d, x);
        lemma_red_threes_push(d, x);
        assert(red_threes_of(a + b) =~= red_threes_of(a) + red_threes_of(b));
        assert(others_of(a + b) =~= others_of(a) + others_of(b));
    }
}

pub proof fn lemma_split_red_threes(s: Seq<Card>)
    ensures
        red_threes_of(s).to_multiset().add(others_of(s).to_multiset()) == s.to_multiset(),
    decreases s.len(),
{
    broadcast use vstd::seq::Seq::lemma_filter_push;
    if s.len() == 0 {
        assert(red_threes_of(s) =~= Seq::empty());
        assert(others_of(s) =~= Seq::empty());
        assert(red_threes_of(s).to_multiset().add(others_of(s).to_multiset()) =~= s.to_multiset());
    } else {
        let d = s.drop_last();
        lemma_split_red_threes(d);
        lemma_red_threes_push(d, s.last());
        assert(s =~= d.push(s.last()));
        assert(red_threes_of(s).to_multiset().add(others_of(s).to_multiset()) =~= s.to_multiset());
    }
}

/// The ids of the cards of `s`, in order.
pub open spec fn ids_of(s: Seq<Card>) -> Seq<usize> {
    s.map_values(|c: Card| c.id)
}

pub proof fn lemma_slots_update(ms: Seq<Option<Meld>>, i: int, m: Option<Meld>)
    requires
        0 <= i < ms.len(),
    ensures
        slots_cards(ms.update(i, m)).add(opt_cards(ms[i])) == slots_cards(ms).add(opt_cards(m)),
        slots_value(ms.update(i, m)) + opt_value(ms[i]) == slots_value(ms) + opt_value(m),
    decreases ms.len(),
{
    let u = ms.update(i, m);
    let dl = ms.drop_last();
    if i == ms.len() - 1 {
        assert(u.drop_last() =~= dl);
        assert(slots_cards(u) == slots_cards(dl).add(opt_cards(m)));
        assert(slots_cards(ms) == slots_cards(dl).add(opt_cards(ms[i])));
    } else {
        lemma_slots_update(dl, i, m);
        assert(dl[i] == ms[i]);
        assert(u.drop_last() =~= dl.update(i, m));
        assert(u.last() == ms.last());
        let a = slots_cards(dl.update(i, m));
        let b = slots_cards(dl);
        assert(slots_cards(u) == a.add(opt_cards(ms.last())));
        assert(slots_cards(ms) == b.add(opt_cards(ms.last())));
        assert(a.add(opt_cards(ms[i])) == b.add(opt_cards(m)));
        assert forall|x: Card| #[trigger] slots_cards(u).add(opt_cards(ms[i])).count(x) == slots_cards(ms).add(opt_cards(m)).count(x) by {
            assert(a.add(opt_cards(ms[i])).count(x) == b.add(opt_cards(m)).count(x));
        }
    }
    assert(slots_cards(u).add(opt_cards(ms[i])) =~= slots_cards(ms).add(opt_cards(m)));
}

pub proof fn lemma_slots_empty(ms: Seq<Option<Meld>>)
    requires
        forall|k: int| 0 <= k < ms.len() ==> #[trigger] ms[k] is None,
    ensures
        slots_cards(ms) == Multiset::<Card>::empty(),
        slots_value(ms) == 0,
    decreases ms.len(),
{
    if ms.len() > 0 {
        lemma_slots_empty(ms.drop_last());
        assert(ms.last() is None);
        assert(slots_cards(ms) =~= Multiset::<Card>::empty());
    }
}

/// What a player is, as a value.
pub struct PlayerView {
    pub game_id: u32,
    pub player_num: u8,
    pub team_num: u8,
    pub hand: Seq<Card>,
    pub melds: Seq<Option<Meld>>,
    pub red_threes: Seq<Card>,
    pub temp: Option<Meld>,
    pub phase: TurnPhase,
}

impl PlayerView {
    /// Four meld slots, each empty or holding a well-formed meld of its
    /// suit, and a well-formed temporary meld if there is one.
    pub open spec fn wf(self) -> bool {
        &&& self.melds.len() == SLOTS
        &&& forall|k: int| 0 <= k < SLOTS ==> (#[trigger] self.melds[k] matches Some(m) ==> m.wf() && suit_slot(m.key()) == k)
        &&& self.temp matches Some(t) ==> t.wf()
    }

    /// Every card this player owns: hand, melds, red threes and temporary meld.
    pub open spec fn cards(self) -> Multiset<Card> {
        self.hand.to_multiset().add(self.red_threes.to_multiset()).add(slots_cards(self.melds)).add(
            opt_cards(self.temp),
        )
    }

    /// The committed meld of suit `s`, if any.
    pub open spec fn meld_for(self, s: Suit) -> Option<Meld> {
        self.melds[suit_slot(s)]
    }

    /// Round-end score: committed meld values (canasta bonuses included),
    /// plus red threes, minus the cards still in hand.
    pub open spec fn score(self) -> int {
        slots_value(self.melds) + value_sum(self.red_threes) - value_sum(self.hand)
    }

    /// `s` can be melded under suit `suit`: it extends the meld of that
    /// suit, or founds one when there is none.
    pub open spec fn can_meld(self, s: Seq<Card>, suit: Suit) -> bool {
        match self.meld_for(suit) {
            Some(m) => m.accepts(s),
            None => valid_meld(suit, s),
        }
    }

    /// `self` is `before` with `s` melded under `suit`.
    pub open spec fn melded_from(self, before: PlayerView, s: Seq<Card>, suit: Suit) -> bool {
        &&& self == PlayerView { melds: self.melds, ..before }
        &&& self.melds == before.melds.update(suit_slot(suit), self.meld_for(suit))
        &&& (self.meld_for(suit) matches Some(m) && m.key() == suit && m.cards_view() == match before.meld_for(suit) {
            Some(old_m) => old_m.cards_view() + s,
            None => s,
        })
    }
}

#[derive(Debug)]
pub struct Player {
    game_id: u32,
    player_num: u8,
    team_num: u8,
    hand: Vec<Card>,
    melds: Vec<Option<Meld>>,
    red_threes: Vec<Card>,
    temp: Option<Meld>,
    turn_phase: TurnPhase,
}

impl View for Player {
    type V = PlayerView;

    closed spec fn view(&self) -> PlayerView {
        PlayerView {
            game_id: self.game_id,
            player_num: self.player_num,
            team_num: self.team_num,
            hand: self.hand@,
            melds: self.melds@,
            red_threes: self.red_threes@,
            temp: self.temp,
            phase: self.turn_phase,
        }
    }
}

/// `i` is the first position of `s` holding the card with id `id`.
pub open spec fn first_with_id(s: Seq<Card>, id: usize, i: int) -> bool {
    &&& 0 <= i < s.len()
    &&& s[i].id == id
    &&& forall|j: int| 0 <= j < i ==> (#[trigger] s[j]).id != id
}

/// Position of the first card of `v` with id `id`.
fn position_of(v: &Vec<Card>, id: usize) -> (r: Option<usize>)
    ensures
        r matches Some(i) ==> first_with_id(v@, id, i as int),
        r is None ==> forall|j: int| 0 <= j < v@.len() ==> (#[trigger] v@[j]).id != id,
{
    let mut k: usize = 0;
    while k < v.len() && v[k].id != id
        invariant
            k <= v.len(),
            forall|x: int| 0 <= x < k ==> (#[trigger] v@[x]).id != id,
        decreases v.len() - k,
    {
        k = k + 1;
    }
    if k == v.len() {
        None
    } else {
        Some(k)
    }
}

/// Takes from `hand` one card for each id of `ids`, in that order, leaving
/// `hand` untouched. Succeeds exactly when every id can be matched to a
/// distinct card of the hand; returns the cards left and the cards taken.
pub fn take_by_ids(hand: &Vec<Card>, ids: &Vec<usize>) -> (r: Option<(Vec<Card>, Vec<Card>)>)
    ensures
        r is Some <==> ids@.to_multiset().subset_of(ids_of(hand@).to_multiset()),
        r matches Some((rest, taken)) ==> ids_of(taken@) == ids@
            && rest@.to_multiset().add(taken@.to_multiset()) == hand@.to_multiset(),
{
    let mut rest: Vec<Card> = Vec::new();
    let mut i: usize = 0;
    while i < hand.len()
        invariant
            i <= hand.len(),
            rest@ == hand@.subrange(0, i as int),
        decreases hand.len() - i,
    {
        rest.push(hand[i]);
        i = i + 1;
        assert(rest@ =~= hand@.subrange(0, i as int));
    }
    assert(rest@ =~= hand@);
    let mut taken: Vec<Card> = Vec::new();
    let mut j: usize = 0;
    while j < ids.len()
        invariant
            j <= ids.len(),
            ids_of(taken@) == ids@.subrange(0, j as int),
            rest@.to_multiset().add(taken@.to_multiset()) == hand@.to_multiset(),
            ids_of(rest@).to_multiset().add(ids@.subrange(0, j as int).to_multiset()) == ids_of(hand@).to_multiset(),
        decreases ids.len() - j,
    {
        let id = ids[j];
        let mut k: usize = 0;
        while k < rest.len() && rest[k].id != id
            invariant
                k <= rest.len(),
                forall|x: int| 0 <= x < k ==> (#[trigger] rest@[x]).id != id,
            decreases rest.len() - k,
        {
            k = k + 1;
        }
        if k == rest.len() {
            proof {
                assert(!ids_of(rest@).contains(id)) by {
                    if ids_of(rest@).contains(id) {
                        let x = choose|x: int| 0 <= x < ids_of(rest@).len() && ids_of(rest@)[x] == id;
                        assert(rest@[x].id == id);
                    }
                }
                let done = ids@.subrange(0, j as int);
                assert(ids@.subrange(0, j + 1) =~= done.push(id));
                assert(ids@.subrange(0, j + 1).to_multiset().count(id) > done.to_multiset().count(id));
                let whole = ids@;
                assert(whole =~= ids@.subrange(0, j + 1) + ids@.subrange(j + 1, ids@.len() as int));
                assert(whole.to_multiset().count(id) >= ids@.subrange(0, j + 1).to_multiset().count(id));
            }
            return None;
        }
        let ghost before = rest@;
        let ghost before_taken = taken@;
        let c = rest.remove(k);
        taken.push(c);
        proof {
            assert(c.id == id);
            assert(ids_of(taken@) =~= ids_of(before_taken).push(c.id));
            assert(ids_of(before).remove(k as int) =~= ids_of(rest@));
            assert(ids_of(before)[k as int] == id);
            assert(ids_of(taken@) =~= ids@.subrange(0, j + 1));
            assert(ids@.subrange(0, j + 1) =~= ids@.subrange(0, j as int).push(id));
            assert(rest@.to_multiset().add(taken@.to_multiset()) =~= hand@.to_multiset());
            assert(ids_of(rest@).to_multiset().add(ids@.subrange(0, j + 1).to_multiset())
                =~= ids_of(hand@).to_multiset());
        }
        j = j + 1;
    }
    proof {
        assert(ids@.subrange(0, j as int) =~= ids@);
    }
    Some((rest, taken))
}


impl PlayerView {
    /// The cards of the temporary meld, as a sequence.
    pub open spec fn temp_seq(self) -> Seq<Card> {
        match self.temp {
            Some(t) => t.cards_view(),
            None => Seq::empty(),
        }
    }

    /// `c` may be pushed onto the temporary meld.
    pub open spec fn temp_accepts(self, c: Card) -> bool {
        match self.temp {
            Some(t) => t.accepts(seq![c]),
            None => c.normal(),
        }
    }
}

impl Player {
    proof fn lemma_meld_cards(&self, before: Player, k: int, m: Option<Meld>, s: Seq<Card>)
        requires
            0 <= k < before@.melds.len(),
            self@ == (PlayerView { melds: before@.melds.update(k, m), ..before@ }),
            opt_cards(m) == opt_cards(before@.melds[k]).add(s.to_multiset()),
        ensures
            self@.cards() == before@.cards().add(s.to_multiset()),
    {
        let ms = before@.melds;
        lemma_slots_update(ms, k, m);
        let a = slots_cards(ms.update(k, m));
        let b = slots_cards(ms);
        assert forall|x: Card| #[trigger] a.count(x) == b.add(s.to_multiset()).count(x) by {
            assert(a.add(opt_cards(ms[k])).count(x) == b.add(opt_cards(m)).count(x));
        }
        assert(a =~= b.add(s.to_multiset()));
        assert(self@.cards() =~= before@.cards().add(s.to_multiset()));
    }

    pub fn new(game_id: u32, player_num: u8, team_num: u8) -> (p: Player)
        ensures
            p@.wf(),
            p@.game_id == game_id,
            p@.player_num == player_num,
            p@.team_num == team_num,
            p@.hand.len() == 0,
            p@.red_threes.len() == 0,
            forall|k: int| 0 <= k < SLOTS ==> #[trigger] p@.melds[k] is None,
            p@.temp is None,
            p@.phase == TurnPhase::Not,
            p@.cards() == Multiset::<Card>::empty(),
    {
        let mut melds: Vec<Option<Meld>> = Vec::new();
        let mut k: usize = 0;
        while k < SLOTS
            invariant
                k <= SLOTS,
                melds@.len() == k,
                forall|x: int| 0 <= x < k ==> #[trigger] melds@[x] is None,
            decreases SLOTS - k,
        {
            melds.push(None);
            k = k + 1;
        }
        let p = Player {
            game_id,
            player_num,
            team_num,
            hand: Vec::new(),
            melds,
            red_threes: Vec::new(),
            temp: None,
            turn_phase: TurnPhase::Not,
        };
        proof {
            let ms = p@.melds;
            lemma_slots_empty(ms);
            assert(p@.cards() =~= Multiset::empty());
        }
        p
    }

    /// The player's number and team number.
    pub fn get_info(&self) -> (r: (u8, u8))
        ensures
            r == (self@.player_num, self@.team_num),
    {
        (self.player_num, self.team_num)
    }

    pub fn get_game_id(&self) -> (r: u32)
        ensures
            r == self@.game_id,
    {
        self.game_id
    }

    /// Whether it is this player's turn.
    pub fn my_turn(&self) -> (b: bool)
        ensures
            b == (self@.phase != TurnPhase::Not),
    {
        self.turn_phase != TurnPhase::Not
    }

    pub fn get_phase(&self) -> (r: TurnPhase)
        ensures
            r == self@.phase,
    {
        self.turn_phase
    }

    pub fn get_hand(&self) -> (r: &Vec<Card>)
        ensures
            r@ == self@.hand,
    {
        &self.hand
    }

    pub fn get_red_threes(&self) -> (r: &Vec<Card>)
        ensures
            r@ == self@.red_threes,
    {
        &self.red_threes
    }

    /// The meld slots, one per suit (Hearts, Diamonds, Spades, Clubs).
    pub fn get_melds(&self) -> (r: &Vec<Option<Meld>>)
        ensures
            r@ == self@.melds,
    {
        &self.melds
    }

    pub(crate) fn set_phase(&mut self, phase: TurnPhase)
        ensures
            final(self)@ == (PlayerView { phase, ..old(self)@ }),
    {
        self.turn_phase = phase;
    }

    pub(crate) fn set_hand(&mut self, hand: Vec<Card>)
        ensures
            final(self)@ == (PlayerView { hand: hand@, ..old(self)@ }),
    {
        self.hand = hand;
    }

    pub(crate) fn push_card(&mut self, card: Card)
        ensures
            final(self)@ == (PlayerView { hand: old(self)@.hand.push(card), ..old(self)@ }),
    {
        self.hand.push(card);
    }

    pub(crate) fn lay_aside(&mut self, card: Card)
        ensures
            final(self)@ == (PlayerView { red_threes: old(self)@.red_threes.push(card), ..old(self)@ }),
    {
        self.red_threes.push(card);
    }

    /// Removes and returns the first card of the hand with id `card_id`.
    pub fn remove_card(&mut self, card_id: usize) -> (r: Option<Card>)
        ensures
            r is None <==> forall|j: int| 0 <= j < old(self)@.hand.len() ==> (#[trigger] old(self)@.hand[j]).id != card_id,
            r is None ==> final(self)@ == old(self)@,
            r matches Some(c) ==> exists|i: int| first_with_id(old(self)@.hand, card_id, i)
                && c == old(self)@.hand[i]
                && final(self)@ == (PlayerView { hand: old(self)@.hand.remove(i), ..old(self)@ }),
    {
        match position_of(&self.hand, card_id) {
            None => None,
            Some(i) => {
                let c = self.hand.remove(i);
                assert(first_with_id(old(self)@.hand, card_id, i as int));
                Some(c)
            },
        }
    }

    /// Puts `cards` at the end of the hand.
    pub fn add_cards(&mut self, cards: Vec<Card>)
        ensures
            final(self)@ == (PlayerView { hand: old(self)@.hand + cards@, ..old(self)@ }),
    {
        let mut cards = cards;
        self.hand.append(&mut cards);
    }

    /// Discards the card with id `card_id`, ending the turn. Legal only in
    /// the throwing phase.
    pub fn throw(&mut self, card_id: usize) -> (r: Result<Card, TurnError>)
        ensures
            old(self)@.phase != TurnPhase::Throw ==> (r matches Err(e) && e.error_type == TurnErrorType::NotThrowPhase),
            old(self)@.phase == TurnPhase::Throw ==> (r is Ok <==> exists|j: int| 0 <= j < old(self)@.hand.len() && (#[trigger] old(self)@.hand[j]).id == card_id),
            r matches Err(e) ==> final(self)@ == old(self)@
                && (old(self)@.phase == TurnPhase::Throw ==> e.error_type == TurnErrorType::InvalidCard),
            r matches Ok(c) ==> exists|i: int| first_with_id(old(self)@.hand, card_id, i)
                && c == old(self)@.hand[i]
                && final(self)@ == (PlayerView { hand: old(self)@.hand.remove(i), phase: TurnPhase::Not, ..old(self)@ }),
    {
        if self.turn_phase != TurnPhase::Throw {
            return Err(TurnError::not_throw_phase("Can only throw on your turn and after drawing a card"));
        }
        match self.remove_card(card_id) {
            None => Err(TurnError::invalid_card("No card with that id in hand")),
            Some(c) => {
                self.turn_phase = TurnPhase::Not;
                Ok(c)
            },
        }
    }

    /// Takes `card`, drawn from the deck, into the hand and moves on to the
    /// throwing phase. Outside the drawing phase the card is handed back in
    /// the error.
    pub fn draw_deck(&mut self, card: Card) -> (r: Result<Card, TurnError>)
        ensures
            old(self)@.phase != TurnPhase::Draw ==> (r matches Err(e) && e.error_type == TurnErrorType::NotDrawPhase(card)
                && final(self)@ == old(self)@),
            old(self)@.phase == TurnPhase::Draw ==> r == Ok::<Card, TurnError>(card)
                && final(self)@ == (PlayerView { hand: old(self)@.hand.push(card), phase: TurnPhase::Throw, ..old(self)@ }),
    {
        if self.turn_phase != TurnPhase::Draw {
            return Err(TurnError::not_draw_phase("Can only draw on your turn when you have not already", card));
        }
        self.hand.push(card);
        self.turn_phase = TurnPhase::Throw;
        Ok(card)
    }

    /// Melds `cards` under `suit`: extends the meld of that suit, or founds
    /// one. All the cards join, or none: refused cards are handed back and
    /// the player is unchanged.
    pub fn meld(&mut self, cards: Vec<Card>, suit: Suit) -> (r: Result<(), Vec<Card>>)
        requires
            old(self)@.wf(),
        ensures
            final(self)@.wf(),
            r is Ok <==> old(self)@.can_meld(cards@, suit),
            r is Ok ==> final(self)@.melded_from(old(self)@, cards@, suit)
                && final(self)@.cards() == old(self)@.cards().add(cards@.to_multiset()),
            r matches Err(back) ==> back@ == cards@ && final(self)@ == old(self)@,
    {
        let k = slot_of(suit);
        let ghost ms = self.melds@;
        let slot = self.melds[k].take();
        let ghost mid = self.melds@;
        assert(mid == ms.update(k as int, None));
        match slot {
            Some(mut m) => {
                let ghost old_m = m;
                match m.add_cards(cards) {
                    Ok(()) => {
                        self.melds.set(k, Some(m));
                        proof {
                            assert(self.melds@ =~= ms.update(k as int, Some(m)));
                            lemma_slots_update(ms, k as int, Some(m));
                            self.lemma_meld_cards(*old(self), k as int, Some(m), cards@);
                        }
                        Ok(())
                    },
                    Err(back) => {
                        self.melds.set(k, Some(m));
                        assert(self.melds@ =~= ms);
                        Err(back)
                    },
                }
            },
            None => {
                match Meld::from_cards(suit, cards) {
                    Ok(m) => {
                        self.melds.set(k, Some(m));
                        proof {
                            assert(self.melds@ =~= ms.update(k as int, Some(m)));
                            assert(opt_cards(Some(m)) =~= opt_cards(ms[k as int]).add(cards@.to_multiset()));
                            self.lemma_meld_cards(*old(self), k as int, Some(m), cards@);
                        }
                        Ok(())
                    },
                    Err(back) => {
                        self.melds.set(k, None);
                        assert(self.melds@ =~= ms);
                        Err(back)
                    },
                }
            },
        }
    }

    /// Number of red threes in hand, which must be laid aside before drawing.
    pub fn check_threes(&self) -> (n: usize)
        ensures
            n == red_threes_of(self@.hand).len(),
    {
        let mut n: usize = 0;
        let mut i: usize = 0;
        while i < self.hand.len()
            invariant
                i <= self.hand.len(),
                n == red_threes_of(self.hand@.subrange(0, i as int)).len(),
                n <= i,
            decreases self.hand.len() - i,
        {
            assert(self.hand@.subrange(0, i + 1) =~= self.hand@.subrange(0, i as int).push(self.hand@[i as int]));
            proof {
                lemma_red_threes_push(self.hand@.subrange(0, i as int), self.hand@[i as int]);
            }
            if self.hand[i].is_red_three() {
                n = n + 1;
            }
            i = i + 1;
        }
        assert(self.hand@.subrange(0, i as int) =~= self.hand@);
        n
    }

    /// Lays every red three of the hand aside; returns how many there were.
    pub fn meld_red_threes(&mut self) -> (n: usize)
        ensures
            final(self)@ == (PlayerView {
                hand: others_of(old(self)@.hand),
                red_threes: old(self)@.red_threes + red_threes_of(old(self)@.hand),
                ..old(self)@
            }),
            n == red_threes_of(old(self)@.hand).len(),
            final(self)@.cards() == old(self)@.cards(),
    {
        let ghost h = self.hand@;
        let ghost r0 = self.red_threes@;
        let mut keep: Vec<Card> = Vec::new();
        let mut n: usize = 0;
        let mut i: usize = 0;
        while i < self.hand.len()
            invariant
                self@ == (PlayerView { red_threes: self@.red_threes, ..old(self)@ }),
                self.hand@ == h,
                i <= h.len(),
                keep@ == others_of(h.subrange(0, i as int)),
                self.red_threes@ == r0 + red_threes_of(h.subrange(0, i as int)),
                n == red_threes_of(h.subrange(0, i as int)).len(),
                n <= i,
            decreases h.len() - i,
        {
            assert(h.subrange(0, i + 1) =~= h.subrange(0, i as int).push(h[i as int]));
            proof {
                lemma_red_threes_push(h.subrange(0, i as int), h[i as int]);
            }
            let c = self.hand[i];
            if c.is_red_three() {
                self.red_threes.push(c);
                n = n + 1;
            } else {
                keep.push(c);
            }
            i = i + 1;
            assert(self.red_threes@ =~= r0 + red_threes_of(h.subrange(0, i as int)));
        }
        assert(h.subrange(0, i as int) =~= h);
        self.hand = keep;
        proof {
            lemma_split_red_threes(h);
            assert(self@.cards() =~= old(self)@.cards());
        }
        n
    }

    /// Moves the first card of the hand with id `card_id` onto the temporary
    /// meld, founding it if there is none. When the card is missing or cannot
    /// join, nothing changes.
    pub fn push_temp(&mut self, card_id: usize) -> (r: Result<(), TempMeldError>)
        requires
            old(self)@.wf(),
        ensures
            final(self)@.wf(),
            final(self)@.cards() == old(self)@.cards(),
            r is Ok <==> exists|i: int| first_with_id(old(self)@.hand, card_id, i)
                && old(self)@.temp_accepts(old(self)@.hand[i]),
            r is Err ==> final(self)@ == old(self)@,
            (forall|j: int| 0 <= j < old(self)@.hand.len() ==> (#[trigger] old(self)@.hand[j]).id != card_id)
                ==> (r matches Err(e) && e.error_type == TempMeldType::InvalidCardNumber),
            r is Ok ==> exists|i: int| first_with_id(old(self)@.hand, card_id, i)
                && final(self)@ == (PlayerView {
                    hand: old(self)@.hand.remove(i),
                    temp: final(self)@.temp,
                    ..old(self)@
                })
                && final(self)@.temp is Some
                && final(self)@.temp_seq() == old(self)@.temp_seq().push(old(self)@.hand[i]),
    {
        let i = match position_of(&self.hand, card_id) {
            Some(i) => i,
            None => {
                return Err(TempMeldError::card_number("No card with that id in hand"));
            },
        };
        let c = self.hand[i];
        assert(first_with_id(old(self)@.hand, card_id, i as int));
        proof {
            assert forall|j: int| first_with_id(old(self)@.hand, card_id, j) implies j == i by {
                if j < i {
                    assert(old(self)@.hand[j].id != card_id);
                } else if j > i {
                    assert(old(self)@.hand[i as int].id != card_id);
                }
            }
        }
        let ghost h = self.hand@;
        match self.temp.take() {
            None => match Meld::new(c) {
                Ok(m) => {
                    self.hand.remove(i);
                    self.temp = Some(m);
                    proof {
                        assert(seq![c] =~= Seq::<Card>::empty().push(c));
                        assert(self@.cards() =~= old(self)@.cards());
                    }
                    Ok(())
                },
                Err(e) => Err(TempMeldError::from(e)),
            },
            Some(mut m) => {
                let ghost before = m.cards_view();
                match m.add(c) {
                    Ok(()) => {
                        self.hand.remove(i);
                        self.temp = Some(m);
                        proof {
                            assert(self@.cards() =~= old(self)@.cards());
                        }
                        Ok(())
                    },
                    Err(e) => {
                        self.temp = Some(m);
                        Err(TempMeldError::from(e))
                    },
                }
            },
        }
    }

    /// Returns the cards of the temporary meld to the hand.
    pub fn clear_temp(&mut self)
        ensures
            final(self)@ == (PlayerView {
                hand: old(self)@.hand + old(self)@.temp_seq(),
                temp: None,
                ..old(self)@
            }),
            final(self)@.cards() == old(self)@.cards(),
    {
        if let Some(meld) = self.temp.take() {
            let mut cards = meld.clear();
            self.hand.append(&mut cards);
        } else {
            assert(self.hand@ =~= old(self)@.hand + old(self)@.temp_seq());
        }
        assert(self@.cards() =~= old(self)@.cards());
    }

    /// The cards of the temporary meld, if one is being built.
    pub fn get_temp(&self) -> (r: Option<&Vec<Card>>)
        ensures
            r is Some <==> self@.temp is Some,
            r matches Some(v) ==> v@ == self@.temp_seq(),
    {
        match &self.temp {
            Some(m) => Some(m.get_cards()),
            None => None,
        }
    }

    /// Commits the temporary meld: it joins the committed meld of its suit,
    /// or, with at least three cards, becomes that meld. Legal only in the
    /// throwing phase; on a refusal nothing changes.
    pub fn commit_temp(&mut self) -> (r: Result<(), TempMeldError>)
        requires
            old(self)@.wf(),
        ensures
            final(self)@.wf(),
            final(self)@.cards() == old(self)@.cards(),
            old(self)@.phase != TurnPhase::Throw ==> (r matches Err(e) && e.error_type == TempMeldType::NotMeldPhase),
            old(self)@.phase == TurnPhase::Throw && old(self)@.temp is None ==> (r matches Err(e)
                && e.error_type == TempMeldType::InvalidMeld),
            old(self)@.phase == TurnPhase::Throw ==> (old(self)@.temp matches Some(t) ==> (
                r is Ok <==> (old(self)@.meld_for(t.key()) is Some || t.cards_view().len() >= MIN_MELD))),
            old(self)@.phase == TurnPhase::Throw && old(self)@.temp is Some && r is Err ==> (r matches Err(e)
                && e.error_type == TempMeldType::InvalidCardNumber),
            r is Err ==> final(self)@ == old(self)@,
            r is Ok ==> (old(self)@.temp matches Some(t) && final(self)@.melded_from(
                PlayerView { temp: None, ..old(self)@ }, t.cards_view(), t.key())),
    {
        if self.turn_phase != TurnPhase::Throw {
            return Err(TempMeldError::not_meld_phase("Melds can only be committed after drawing"));
        }
        let t = match self.temp.take() {
            Some(t) => t,
            None => {
                return Err(TempMeldError::meld("No meld to commit"));
            },
        };
        let k = slot_of(t.get_suit());
        let ghost ms = self.melds@;
        let ghost tc = t.cards_view();
        let slot = self.melds[k].take();
        match slot {
            Some(mut m) => {
                let ghost old_m = m;
                let res = m.combine(t);
                assert(res is Ok);
                self.melds.set(k, Some(m));
                proof {
                    assert(self.melds@ =~= ms.update(k as int, Some(m)));
                    assert(opt_cards(Some(m)) =~= opt_cards(ms[k as int]).add(tc.to_multiset()));
                    lemma_slots_update(ms, k as int, Some(m));
                    let before = PlayerView { temp: None, ..old(self)@ };
                    let a = slots_cards(self.melds@);
                    let b = slots_cards(ms);
                    assert forall|x: Card| #[trigger] a.count(x) == b.add(tc.to_multiset()).count(x) by {
                        assert(a.add(opt_cards(ms[k as int])).count(x) == b.add(opt_cards(Some(m))).count(x));
                    }
                    assert(a =~= b.add(tc.to_multiset()));
                    assert(self@.cards() =~= old(self)@.cards());
                }
                Ok(())
            },
            None => {
                if t.get_cards().len() < MIN_MELD {
                    self.melds.set(k, None);
                    self.temp = Some(t);
                    assert(self.melds@ =~= ms);
                    return Err(TempMeldError::card_number("A new meld needs at least three cards"));
                }
                self.melds.set(k, Some(t));
                proof {
                    assert(self.melds@ =~= ms.update(k as int, Some(t)));
                    lemma_slots_update(ms, k as int, Some(t));
                    let a = slots_cards(self.melds@);
                    let b = slots_cards(ms);
                    assert forall|x: Card| #[trigger] a.count(x) == b.add(tc.to_multiset()).count(x) by {
                        assert(a.add(opt_cards(ms[k as int])).count(x) == b.add(opt_cards(Some(t))).count(x));
                    }
                    assert(a =~= b.add(tc.to_multiset()));
                    assert(self@.cards() =~= old(self)@.cards());
                }
                Ok(())
            },
        }
    }

    /// Round-end score: committed meld values (canasta bonuses included),
    /// plus the red threes laid aside, minus the cards left in hand.
    pub fn score(&self) -> (s: i128)
        requires
            self@.wf(),
        ensures
            s as int == self@.score(),
    {
        let mut melded: u128 = 0;
        let mut k: usize = 0;
        while k < SLOTS
            invariant
                self@.wf(),
                k <= SLOTS,
                melded as nat == slots_value(self.melds@.subrange(0, k as int)),
                melded <= k * 0x80_0000_0000_0000_0000,
            decreases SLOTS - k,
        {
            assert(self.melds@.subrange(0, k + 1).drop_last() =~= self.melds@.subrange(0, k as int));
            match &self.melds[k] {
                Some(m) => {
                    proof {
                        m.lemma_value_bound();
                        assert(100 * (usize::MAX as nat) + 500 <= 0x80_0000_0000_0000_0000);
                    }
                    melded = melded + m.get_value();
                },
                None => {},
            }
            k = k + 1;
        }
        assert(self.melds@.subrange(0, k as int) =~= self.melds@);
        let threes = total_value(&self.red_threes);
        let held = total_value(&self.hand);
        assert(100 * (usize::MAX as nat) <= 0x80_0000_0000_0000_0000);
        melded as i128 + threes as i128 - held as i128
    }
}

/// A Three never joins a meld: cards that include one can be melded under
/// no suit, whatever the player has melded before.
pub proof fn law_three_never_melds(p: PlayerView, s: Seq<Card>, suit: Suit, i: int)
    requires
        0 <= i < s.len(),
        s[i].three(),
    ensures
        !p.can_meld(s, suit),
{
    match p.meld_for(suit) {
        Some(m) => {
            assert((m.cards_view() + s)[m.cards_view().len() + i] == s[i]);
        },
        None => {},
    }
}

} // verus!
