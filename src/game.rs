//! The table: deck, discard pile with its frozen flag, players and the turn
//! pointer. Every action is validated and applied whole, or refused with no
//! effect, and no card is ever created, lost or duplicated.
use vstd::prelude::*;
use vstd::multiset::Multiset;
use crate::card::{Card, Suit};
use crate::meld::{natural_count, wild_count, lemma_wild_count_bound, Meld};
use crate::deck::{fresh_deck, make_deck};
use crate::errors::{RuleError, RuleErrorType, PackClaimReason, SettingsError, SettingsErrorType};
use crate::player::{Player, PlayerView, TurnPhase, SLOTS, take_by_ids, ids_of, red_threes_of, others_of, first_with_id, lemma_red_threes_push, lemma_red_threes_concat};
use crate::errors::TurnErrorType;

verus! {

broadcast use {
    vstd::seq_lib::group_to_multiset_ensures,
    vstd::multiset::group_multiset_axioms,
    vstd::seq_lib::lemma_multiset_commutative,
};

/// No two cards of `m` share an id, and no card occurs twice.
pub open spec fn unique_ids(m: Multiset<Card>) -> bool {
    forall|a: Card, b: Card| #[trigger] m.count(a) > 0 && #[trigger] m.count(b) > 0 && a.id == b.id ==> a == b && m.count(a) == 1
}

/// No two positions of `s` hold cards with the same id.
pub open spec fn ids_distinct(s: Seq<Card>) -> bool {
    forall|i: int, j: int| 0 <= i < j < s.len() ==> (#[trigger] s[i]).id != (#[trigger] s[j]).id
}

pub proof fn lemma_distinct_within(s: Seq<Card>, m: Multiset<Card>)
    requires
        unique_ids(m),
        forall|x: Card| s.to_multiset().count(x) <= #[trigger] m.count(x),
    ensures
        ids_distinct(s),
{
    assert forall|x: Card| s.to_multiset().contains(x) implies s.to_multiset().count(x) == 1 by {
        assert(m.count(x) > 0);
    }
    s.lemma_multiset_has_no_duplicates_conv();
    assert forall|i: int, j: int| 0 <= i < j < s.len() implies (#[trigger] s[i]).id != (#[trigger] s[j]).id by {
        if s[i].id == s[j].id {
            assert(s.to_multiset().count(s[i]) > 0);
            assert(s.to_multiset().count(s[j]) > 0);
            assert(m.count(s[i]) > 0 && m.count(s[j]) > 0);
        }
    }
}

pub proof fn lemma_distinct_unique(s: Seq<Card>)
    ensures
        ids_distinct(s) <==> unique_ids(s.to_multiset()),
{
    if ids_distinct(s) {
        assert(s.no_duplicates());
        s.lemma_multiset_has_no_duplicates();
        assert forall|a: Card, b: Card| #[trigger] s.to_multiset().count(a) > 0 && #[trigger] s.to_multiset().count(b) > 0
            && a.id == b.id implies a == b && s.to_multiset().count(a) == 1 by {
            assert(s.contains(a));
            assert(s.contains(b));
            let i = choose|i: int| 0 <= i < s.len() && s[i] == a;
            let j = choose|j: int| 0 <= j < s.len() && s[j] == b;
            if i < j {
                assert(s[i].id != s[j].id);
            } else if j < i {
                assert(s[j].id != s[i].id);
            }
        }
    } else {
        let (i, j) = choose|i: int, j: int| 0 <= i < j < s.len() && (#[trigger] s[i]).id == (#[trigger] s[j]).id;
        assert(s.to_multiset().count(s[i]) > 0);
        assert(s.to_multiset().count(s[j]) > 0);
        if s[i] == s[j] {
            if unique_ids(s.to_multiset()) {
                s.lemma_multiset_has_no_duplicates_conv();
            }
        }
    }
}

/// The views of a sequence of players.
pub open spec fn player_views(v: Seq<Player>) -> Seq<PlayerView> {
    v.map_values(|p: Player| p@)
}

/// All the cards owned by the players of `ps`.
pub open spec fn players_cards(ps: Seq<PlayerView>) -> Multiset<Card>
    decreases ps.len(),
{
    if ps.len() == 0 {
        Multiset::empty()
    } else {
        players_cards(ps.drop_last()).add(ps.last().cards())
    }
}

pub proof fn lemma_players_update(ps: Seq<PlayerView>, i: int, p: PlayerView, loss: Multiset<Card>, gain: Multiset<Card>)
    requires
        0 <= i < ps.len(),
        p.cards().add(loss) == ps[i].cards().add(gain),
    ensures
        players_cards(ps.update(i, p)).add(loss) == players_cards(ps).add(gain),
    decreases ps.len(),
{
    let u = ps.update(i, p);
    let d = ps.drop_last();
    assert(players_cards(ps) == players_cards(d).add(ps.last().cards()));
    if i == ps.len() - 1 {
        assert(u.drop_last() =~= d);
        assert(players_cards(u) == players_cards(d).add(p.cards()));
        assert(ps[i] == ps.last());
        assert forall|x: Card| #[trigger] players_cards(u).add(loss).count(x) == players_cards(ps).add(gain).count(x) by {
            assert(p.cards().add(loss).count(x) == ps[i].cards().add(gain).count(x));
            assert(players_cards(u).count(x) == players_cards(d).count(x) + p.cards().count(x));
            assert(players_cards(ps).count(x) == players_cards(d).count(x) + ps[i].cards().count(x));
            assert(p.cards().add(loss).count(x) == p.cards().count(x) + loss.count(x));
            assert(ps[i].cards().add(gain).count(x) == ps[i].cards().count(x) + gain.count(x));
            assert(players_cards(u).add(loss).count(x) == players_cards(u).count(x) + loss.count(x));
            assert(players_cards(ps).add(gain).count(x) == players_cards(ps).count(x) + gain.count(x));
        }
    } else {
        lemma_players_update(d, i, p, loss, gain);
        assert(u.drop_last() =~= d.update(i, p));
        assert(u.last() == ps.last());
        assert(d[i] == ps[i]);
        assert(players_cards(u) == players_cards(d.update(i, p)).add(ps.last().cards()));
        assert forall|x: Card| #[trigger] players_cards(u).add(loss).count(x) == players_cards(ps).add(gain).count(x) by {
            assert(players_cards(d.update(i, p)).add(loss).count(x) == players_cards(d).add(gain).count(x));
        }
    }
    assert(players_cards(u).add(loss) =~= players_cards(ps).add(gain));
}

pub proof fn lemma_same_views(ps: Seq<Player>, i: int, p: Player)
    requires
        0 <= i < ps.len(),
        p@ == ps[i]@,
    ensures
        player_views(ps.update(i, p)) == player_views(ps),
{
    assert(player_views(ps.update(i, p)) =~= player_views(ps));
}

pub proof fn lemma_player_within(ps: Seq<PlayerView>, i: int)
    requires
        0 <= i < ps.len(),
    ensures
        forall|x: Card| ps[i].cards().count(x) <= #[trigger] players_cards(ps).count(x),
    decreases ps.len(),
{
    assert(players_cards(ps) == players_cards(ps.drop_last()).add(ps.last().cards()));
    if i < ps.len() - 1 {
        lemma_player_within(ps.drop_last(), i);
        assert(ps.drop_last()[i] == ps[i]);
    }
}

pub proof fn lemma_player_views_update(v: Seq<Player>, i: int, p: Player)
    requires
        0 <= i < v.len(),
    ensures
        player_views(v.update(i, p)) == player_views(v).update(i, p@),
{
    assert(player_views(v.update(i, p)) =~= player_views(v).update(i, p@));
}

/// What a table is, as a value.
pub struct GameView {
    pub players: Seq<PlayerView>,
    pub deck: Seq<Card>,
    pub discard: Seq<Card>,
    pub frozen: bool,
    pub player_turn: int,
    pub dealt: bool,
    pub round_over: bool,
}

impl GameView {
    /// Every card on the table: deck, discard pile and everything each
    /// player owns.
    pub open spec fn cards(self) -> Multiset<Card> {
        self.deck.to_multiset().add(self.discard.to_multiset()).add(players_cards(self.players))
    }

    pub open spec fn wf(self) -> bool {
        &&& 2 <= self.players.len() <= 255
        &&& 0 <= self.player_turn < self.players.len()
        &&& forall|i: int| 0 <= i < self.players.len() ==> (#[trigger] self.players[i]).wf()
        &&& unique_ids(self.cards())
    }

    /// The error for an action of `player` before any phase is considered:
    /// the round is over, there is no such player, or it is not their turn.
    pub open spec fn turn_error(self, player: int) -> Option<RuleErrorType> {
        if self.round_over {
            Some(RuleErrorType::RoundOver)
        } else if !(0 <= player < self.players.len()) {
            Some(RuleErrorType::InvalidPlayer)
        } else if player != self.player_turn {
            Some(RuleErrorType::NotYourTurn)
        } else {
            None
        }
    }

    /// The player whose turn it is.
    pub open spec fn current(self) -> PlayerView {
        self.players[self.player_turn]
    }

    /// The cards of the current player's hand named by `ids`, in that order.
    pub open spec fn picked(self, ids: Seq<usize>) -> Seq<Card> {
        Seq::new(ids.len(), |j: int| card_with_id(self.current().hand, ids[j]))
    }

    /// Top card of the discard pile.
    pub open spec fn top(self) -> Card {
        self.discard.last()
    }

    /// Why taking the pack with the cards named by `ids` is refused, if it is,
    /// once it is the current player's turn to draw with no red three in hand.
    pub open spec fn claim_refusal(self, ids: Seq<usize>) -> Option<PackClaimReason> {
        let picked = self.picked(ids);
        if self.discard.len() == 0 || !self.top().normal() {
            Some(PackClaimReason::TopCardUnclaimable)
        } else if !self.ids_in_hand(ids) {
            Some(PackClaimReason::CardNotFound)
        } else if exists|i: int| 0 <= i < picked.len() && (#[trigger] picked[i]).three() {
            Some(PackClaimReason::ThreeOffered)
        } else if exists|i: int| 0 <= i < picked.len() && (#[trigger] picked[i]).normal() && picked[i].suit != self.top().suit {
            Some(PackClaimReason::SuitMismatch)
        } else if self.frozen && natural_count(picked) < 2 {
            Some(PackClaimReason::FrozenMinimum)
        } else if !self.current().can_meld(picked.push(self.top()), self.top().suit) {
            Some(PackClaimReason::InvalidMeld)
        } else {
            None
        }
    }

    /// The ids can all be found, once each, in the current player's hand.
    pub open spec fn ids_in_hand(self, ids: Seq<usize>) -> bool {
        ids.to_multiset().subset_of(ids_of(self.current().hand).to_multiset())
    }
}

/// The card of `s` with id `id` (when the ids of `s` are distinct).
pub open spec fn card_with_id(s: Seq<Card>, id: usize) -> Card {
    s[choose|i: int| 0 <= i < s.len() && s[i].id == id]
}

#[derive(Debug)]
pub struct Game {
    players: Vec<Player>,
    deck: Vec<Card>,
    discard: Vec<Card>,
    frozen: bool,
    player_turn: usize,
    dealt: bool,
    round_over: bool,
}

impl View for Game {
    type V = GameView;

    closed spec fn view(&self) -> GameView {
        GameView {
            players: player_views(self.players@),
            deck: self.deck@,
            discard: self.discard@,
            frozen: self.frozen,
            player_turn: self.player_turn as int,
            dealt: self.dealt,
            round_over: self.round_over,
        }
    }
}

impl Game {
    /// A table for `num_players` players over `deck`, taken as it is (top
    /// card last). Refused for fewer than two players, or when two cards of
    /// the deck share an id.
    pub fn from_deck(num_players: u8, deck: Vec<Card>) -> (r: Result<Game, SettingsError>)
        ensures
            r is Ok <==> num_players >= 2 && ids_distinct(deck@),
            num_players < 2 ==> (r matches Err(e) && e.error_type == SettingsErrorType::InvalidNumberOfPlayers),
            num_players >= 2 && !ids_distinct(deck@) ==> (r matches Err(e)
                && e.error_type == SettingsErrorType::DuplicateCard),
            r matches Ok(g) ==> {
                &&& g@.wf()
                &&& g@.players.len() == num_players
                &&& g@.deck == deck@
                &&& g@.discard.len() == 0
                &&& !g@.frozen
                &&& g@.player_turn == 0
                &&& !g@.dealt
                &&& !g@.round_over
                &&& g@.cards() == deck@.to_multiset()
                &&& forall|i: int| 0 <= i < num_players ==> {
                    &&& (#[trigger] g@.players[i]).player_num == i
                    &&& g@.players[i].phase == TurnPhase::Not
                    &&& g@.players[i].cards() == Multiset::<Card>::empty()
                    &&& g@.players[i].hand.len() == 0
                }
            },
    {
        if num_players < 2 {
            return Err(SettingsError::new(SettingsErrorType::InvalidNumberOfPlayers, "A game needs at least two players"));
        }
        let mut i: usize = 0;
        while i < deck.len()
            invariant
                num_players >= 2,
                i <= deck.len(),
                ids_distinct(deck@.subrange(0, i as int)),
            decreases deck.len() - i,
        {
            let mut j: usize = 0;
            while j < i
                invariant
                    num_players >= 2,
                    i < deck.len(),
                    j <= i,
                    forall|k: int| 0 <= k < j ==> (#[trigger] deck@[k]).id != deck@[i as int].id,
                decreases i - j,
            {
                if deck[j].id == deck[i].id {
                    assert(!ids_distinct(deck@)) by {
                        assert(deck@[j as int].id == deck@[i as int].id);
                    }
                    return Err(SettingsError::new(SettingsErrorType::DuplicateCard, "Two cards of the deck share an id"));
                }
                j = j + 1;
            }
            proof {
                let s = deck@.subrange(0, i + 1);
                assert forall|a: int, b: int| 0 <= a < b < s.len() implies (#[trigger] s[a]).id != (#[trigger] s[b]).id by {
                    if b < i {
                        assert(deck@.subrange(0, i as int)[a] == s[a]);
                        assert(deck@.subrange(0, i as int)[b] == s[b]);
                    }
                }
            }
            i = i + 1;
        }
        assert(deck@.subrange(0, i as int) =~= deck@);
        let mut players: Vec<Player> = Vec::new();
        let mut k: u8 = 0;
        while k < num_players
            invariant
                k <= num_players,
                players@.len() == k,
                forall|x: int| 0 <= x < k ==> {
                    &&& (#[trigger] players@[x])@.wf()
                    &&& players@[x]@.player_num == x
                    &&& players@[x]@.phase == TurnPhase::Not
                    &&& players@[x]@.cards() == Multiset::<Card>::empty()
                    &&& players@[x]@.hand.len() == 0
                },
            decreases num_players - k,
        {
            players.push(Player::new(0, k, k));
            k = k + 1;
        }
        let g = Game {
            players,
            deck,
            discard: Vec::new(),
            frozen: false,
            player_turn: 0,
            dealt: false,
            round_over: false,
        };
        proof {
            let ps = g@.players;
            assert forall|n: nat| n <= ps.len() implies players_cards(#[trigger] ps.subrange(0, n as int)) == Multiset::<Card>::empty() by {
                lemma_no_cards(ps, n);
            }
            assert(ps.subrange(0, ps.len() as int) =~= ps);
            assert(g@.cards() =~= g@.deck.to_multiset());
            lemma_distinct_unique(g@.deck);
        }
        Ok(g)
    }
}

impl Game {
    /// A table for `num_players` players with a shuffled deck of `num_packs`
    /// complete packs and `jokers` Jokers. Refused for fewer than two players
    /// or no pack.
    pub fn new(num_players: u8, num_packs: u8, jokers: u8) -> (r: Result<Game, SettingsError>)
        ensures
            r is Ok <==> num_players >= 2 && num_packs >= 1,
            num_players < 2 ==> (r matches Err(e) && e.error_type == SettingsErrorType::InvalidNumberOfPlayers),
            num_players >= 2 && num_packs < 1 ==> (r matches Err(e) && e.error_type == SettingsErrorType::InvalidPackCount),
            r matches Ok(g) ==> {
                &&& g@.wf()
                &&& g@.players.len() == num_players
                &&& g@.cards() == fresh_deck(num_packs as nat, jokers as nat).to_multiset()
                &&& g@.deck.to_multiset() == fresh_deck(num_packs as nat, jokers as nat).to_multiset()
                &&& g@.discard.len() == 0
                &&& !g@.frozen
                &&& g@.player_turn == 0
                &&& !g@.dealt
                &&& !g@.round_over
                &&& forall|i: int| 0 <= i < num_players ==> {
                    &&& (#[trigger] g@.players[i]).player_num == i
                    &&& g@.players[i].phase == TurnPhase::Not
                    &&& g@.players[i].cards() == Multiset::<Card>::empty()
                    &&& g@.players[i].hand.len() == 0
                }
            },
    {
        if num_players < 2 {
            return Err(SettingsError::new(SettingsErrorType::InvalidNumberOfPlayers, "A game needs at least two players"));
        }
        if num_packs < 1 {
            return Err(SettingsError::new(SettingsErrorType::InvalidPackCount, "A game needs at least one pack"));
        }
        let deck = make_deck(num_packs, jokers);
        proof {
            let f = fresh_deck(num_packs as nat, jokers as nat);
            assert(ids_distinct(f)) by {
                assert forall|i: int, j: int| 0 <= i < j < f.len() implies (#[trigger] f[i]).id != (#[trigger] f[j]).id by {
                    assert(f[i].id == i);
                    assert(f[j].id == j);
                }
            }
            lemma_distinct_unique(f);
            lemma_distinct_unique(deck@);
        }
        Game::from_deck(num_players, deck)
    }

    fn check_turn(&self, player_num: usize) -> (r: Result<(), RuleError>)
        ensures
            r is Ok <==> self@.turn_error(player_num as int) is None,
            r matches Err(e) ==> self@.turn_error(player_num as int) == Some(e.error_type),
    {
        if self.round_over {
            return Err(RuleError::new(RuleErrorType::RoundOver, "The round is over"));
        }
        if player_num >= self.players.len() {
            return Err(RuleError::new(RuleErrorType::InvalidPlayer, "No such player"));
        }
        if player_num != self.player_turn {
            return Err(RuleError::new(RuleErrorType::NotYourTurn, "It is another player's turn"));
        }
        Ok(())
    }

    /// The discard pile, top card last.
    pub fn get_discard(&self) -> (r: &Vec<Card>)
        ensures
            r@ == self@.discard,
    {
        &self.discard
    }

    /// The deck, top card last.
    pub fn get_deck(&self) -> (r: &Vec<Card>)
        ensures
            r@ == self@.deck,
    {
        &self.deck
    }

    pub fn is_frozen(&self) -> (b: bool)
        ensures
            b == self@.frozen,
    {
        self.frozen
    }

    pub fn is_round_over(&self) -> (b: bool)
        ensures
            b == self@.round_over,
    {
        self.round_over
    }

    /// Number of the player whose turn it is.
    pub fn current_player(&self) -> (r: usize)
        ensures
            r == self@.player_turn,
    {
        self.player_turn
    }

    pub fn num_players(&self) -> (r: usize)
        ensures
            r == self@.players.len(),
    {
        self.players.len()
    }

    pub fn get_player(&self, id: usize) -> (r: &Player)
        requires
            id < self@.players.len(),
        ensures
            r@ == self@.players[id as int],
    {
        &self.players[id]
    }

    /// The hand of player `id`, or `None` if there is no such player.
    pub fn hand_of(&self, id: usize) -> (r: Option<&Vec<Card>>)
        ensures
            r is Some <==> id < self@.players.len(),
            r matches Some(h) ==> h@ == self@.players[id as int].hand,
    {
        if id < self.players.len() {
            Some(self.players[id].get_hand())
        } else {
            None
        }
    }

    /// The score of player `id`, or `None` if there is no such player.
    pub fn score(&self, id: usize) -> (r: Option<i128>)
        requires
            self@.wf(),
        ensures
            r is Some <==> id < self@.players.len(),
            r matches Some(s) ==> s as int == self@.players[id as int].score(),
    {
        if id < self.players.len() {
            assert(self@.players[id as int] == self.players@[id as int]@);
            Some(self.players[id].score())
        } else {
            None
        }
    }

    /// Passes the turn to the next player, who must now draw.
    fn next_turn(&mut self)
        requires
            old(self)@.wf(),
        ensures
            final(self)@ == (GameView {
                player_turn: (old(self)@.player_turn + 1) % (old(self)@.players.len() as int),
                players: old(self)@.players.update(
                    (old(self)@.player_turn + 1) % (old(self)@.players.len() as int),
                    PlayerView { phase: TurnPhase::Draw, ..old(self)@.players[(old(self)@.player_turn + 1) % (old(self)@.players.len() as int)] },
                ),
                ..old(self)@
            }),
            final(self)@.cards() == old(self)@.cards(),
            final(self)@.wf(),
    {
        let next = (self.player_turn + 1) % self.players.len();
        let ghost ps = self.players@;
        self.players[next].set_phase(TurnPhase::Draw);
        self.player_turn = next;
        proof {
            let p = self.players@[next as int];
            lemma_player_views_update(ps, next as int, p);
            assert(player_views(ps)[next as int] == ps[next as int]@);
            assert(p@.cards().add(Multiset::empty()) =~= player_views(ps)[next as int].cards().add(Multiset::empty()));
            lemma_players_update(player_views(ps), next as int, p@, Multiset::empty(), Multiset::empty());
            assert(self@.players == player_views(ps).update(next as int, p@));
            assert forall|x: Card| #[trigger] players_cards(self@.players).count(x) == players_cards(old(self)@.players).count(x) by {
                assert(players_cards(self@.players).add(Multiset::empty()).count(x) == players_cards(old(self)@.players).add(Multiset::empty()).count(x));
            }
            assert(players_cards(self@.players) =~= players_cards(old(self)@.players));
            assert(self@.cards() =~= old(self)@.cards());
            assert forall|i: int| 0 <= i < self@.players.len() implies (#[trigger] self@.players[i]).wf() by {
                assert(old(self)@.players[i].wf());
            }
        }
    }

    /// Throws the card with id `card_id` from the hand of `player_num` onto
    /// the discard pile and passes the turn. A wild card freezes the pile.
    /// Legal only in the throwing phase.
    pub fn discard(&mut self, player_num: usize, card_id: usize) -> (r: Result<(), RuleError>)
        requires
            old(self)@.wf(),
        ensures
            final(self)@.wf(),
            final(self)@.cards() == old(self)@.cards(),
            old(self)@.turn_error(player_num as int) matches Some(k) ==> (r matches Err(e) && e.error_type == k),
            old(self)@.turn_error(player_num as int) is None && old(self)@.current().phase != TurnPhase::Throw
                ==> (r matches Err(e) && e.error_type == RuleErrorType::WrongPhase),
            old(self)@.turn_error(player_num as int) is None && old(self)@.current().phase == TurnPhase::Throw ==> (
                r is Ok <==> exists|j: int| 0 <= j < old(self)@.current().hand.len() && (#[trigger] old(self)@.current().hand[j]).id == card_id),
            old(self)@.turn_error(player_num as int) is None && old(self)@.current().phase == TurnPhase::Throw && r is Err
                ==> (r matches Err(e) && e.error_type == RuleErrorType::CardNotFound),
            r is Err ==> final(self)@ == old(self)@,
            r is Ok ==> exists|i: int| first_with_id(old(self)@.current().hand, card_id, i) && ({
                let c = old(self)@.current().hand[i];
                let t = old(self)@.player_turn;
                let next = (t + 1) % (old(self)@.players.len() as int);
                &&& final(self)@.discard == old(self)@.discard.push(c)
                &&& final(self)@.frozen == (old(self)@.frozen || c.wild())
                &&& final(self)@.deck == old(self)@.deck
                &&& final(self)@.player_turn == next
                &&& final(self)@.dealt == old(self)@.dealt
                &&& final(self)@.round_over == old(self)@.round_over
                &&& final(self)@.players == old(self)@.players.update(t, PlayerView {
                        hand: old(self)@.current().hand.remove(i),
                        phase: TurnPhase::Not,
                        ..old(self)@.current()
                    }).update(next, PlayerView { phase: TurnPhase::Draw, ..old(self)@.players[next] })
            }),
    {
        self.check_turn(player_num)?;
        let t = self.player_turn;
        let ghost ps = self.players@;
        let ghost g0 = self@;
        let c = match self.players[t].throw(card_id) {
            Ok(c) => c,
            Err(e) => {
                proof {
                    lemma_same_views(ps, t as int, self.players@[t as int]);
                    assert(self.players@ =~= ps.update(t as int, self.players@[t as int]));
                }
                let kind = match e.error_type {
                    TurnErrorType::InvalidCard => RuleErrorType::CardNotFound,
                    _ => RuleErrorType::WrongPhase,
                };
                return Err(RuleError::new(kind, "The card cannot be thrown"));
            },
        };
        if c.is_wild() {
            self.frozen = true;
        }
        self.discard.push(c);
        let ghost wi: int = choose|i: int| first_with_id(ps[t as int]@.hand, card_id, i) && c == ps[t as int]@.hand[i]
            && self.players@[t as int]@ == (PlayerView { hand: ps[t as int]@.hand.remove(i), phase: TurnPhase::Not, ..ps[t as int]@ });
        proof {
            let p = self.players@[t as int];
            assert(self.players@ == ps.update(t as int, p));
            lemma_player_views_update(ps, t as int, p);
            assert(player_views(ps)[t as int] == ps[t as int]@);
            assert(p@.cards().add(Multiset::empty().insert(c)) =~= ps[t as int]@.cards().add(Multiset::empty()));
            lemma_players_update(player_views(ps), t as int, p@, Multiset::empty().insert(c), Multiset::empty());
            let np = players_cards(self@.players);
            let op = players_cards(old(self)@.players);
            assert(self@.players == player_views(ps).update(t as int, p@));
            assert forall|x: Card| #[trigger] self@.cards().count(x) == old(self)@.cards().count(x) by {
                assert(np.add(Multiset::empty().insert(c)).count(x) == op.add(Multiset::empty()).count(x));
            }
            assert(self@.cards() =~= old(self)@.cards());
            assert forall|k: int| 0 <= k < self@.players.len() implies (#[trigger] self@.players[k]).wf() by {
                assert(old(self)@.players[k].wf());
            }
        }
        let ghost mid = self@;
        self.next_turn();
        proof {
            assert(first_with_id(old(self)@.current().hand, card_id, wi));
            let n = old(self)@.players.len() as int;
            let next = (t + 1) % n;
            if t + 1 < n {
                vstd::arithmetic::div_mod::lemma_small_mod((t + 1) as nat, n as nat);
            } else {
                vstd::arithmetic::div_mod::lemma_mod_self_0(n);
            }
            assert(mid.players[next] == old(self)@.players[next]);
        }
        Ok(())
    }
}

pub proof fn lemma_taken_is_picked(hand: Seq<Card>, ids: Seq<usize>, rest: Seq<Card>, taken: Seq<Card>)
    requires
        ids_distinct(hand),
        ids_of(taken) == ids,
        rest.to_multiset().add(taken.to_multiset()) == hand.to_multiset(),
    ensures
        taken == Seq::new(ids.len(), |j: int| card_with_id(hand, ids[j])),
{
    assert forall|j: int| 0 <= j < taken.len() implies taken[j] == card_with_id(hand, ids[j]) by {
        assert(taken.to_multiset().count(taken[j]) > 0);
        assert(hand.to_multiset().count(taken[j]) > 0);
        assert(hand.contains(taken[j]));
        let i = choose|i: int| 0 <= i < hand.len() && hand[i] == taken[j];
        assert(ids_of(taken)[j] == taken[j].id);
        assert(hand[i].id == ids[j]);
        let k = choose|k: int| 0 <= k < hand.len() && hand[k].id == ids[j];
        if i < k {
            assert(hand[i].id != hand[k].id);
        } else if k < i {
            assert(hand[k].id != hand[i].id);
        }
    }
    assert(taken =~= Seq::new(ids.len(), |j: int| card_with_id(hand, ids[j])));
}

impl GameView {
    pub proof fn lemma_current_hand_distinct(self)
        requires
            self.wf(),
        ensures
            ids_distinct(self.current().hand),
    {
        let p = self.current();
        lemma_player_within(self.players, self.player_turn);
        assert forall|x: Card| p.hand.to_multiset().count(x) <= #[trigger] self.cards().count(x) by {
            assert(p.cards().count(x) <= players_cards(self.players).count(x));
        }
        lemma_distinct_within(p.hand, self.cards());
    }
}

impl Game {
    /// Melds the cards named by `card_ids` from the current player's hand
    /// under `suit`: they extend the player's meld of that suit, or found it.
    /// Legal only in the throwing phase. On any refusal the table, and the
    /// player's hand card for card, are as before.
    pub fn meld(&mut self, player_num: usize, card_ids: Vec<usize>, suit: Suit) -> (r: Result<(), RuleError>)
        requires
            old(self)@.wf(),
        ensures
            final(self)@.wf(),
            final(self)@.cards() == old(self)@.cards(),
            old(self)@.turn_error(player_num as int) matches Some(k) ==> (r matches Err(e) && e.error_type == k),
            old(self)@.turn_error(player_num as int) is None && old(self)@.current().phase != TurnPhase::Throw
                ==> (r matches Err(e) && e.error_type == RuleErrorType::WrongPhase),
            old(self)@.turn_error(player_num as int) is None && old(self)@.current().phase == TurnPhase::Throw
                && !old(self)@.ids_in_hand(card_ids@) ==> (r matches Err(e) && e.error_type == RuleErrorType::CardNotFound),
            old(self)@.turn_error(player_num as int) is None && old(self)@.current().phase == TurnPhase::Throw
                && old(self)@.ids_in_hand(card_ids@) ==> (
                    (r is Ok <==> old(self)@.current().can_meld(old(self)@.picked(card_ids@), suit))
                    && (r is Err ==> (r matches Err(e) && e.error_type == RuleErrorType::InvalidMeld))),
            r is Err ==> final(self)@ == old(self)@,
            r is Ok ==> ({
                let t = old(self)@.player_turn;
                let cur = old(self)@.current();
                let picked = old(self)@.picked(card_ids@);
                let p = final(self)@.players[t];
                &&& final(self)@ == (GameView { players: old(self)@.players.update(t, p), ..old(self)@ })
                &&& p.hand.to_multiset().add(picked.to_multiset()) == cur.hand.to_multiset()
                &&& p.melded_from(PlayerView { hand: p.hand, ..cur }, picked, suit)
            }),
    {
        self.check_turn(player_num)?;
        let t = self.player_turn;
        if self.players[t].get_phase() != TurnPhase::Throw {
            return Err(RuleError::new(RuleErrorType::WrongPhase, "Melding is only allowed after drawing"));
        }
        let ghost ps = self.players@;
        proof {
            assert(old(self)@.current() == ps[t as int]@);
            assert(ps[t as int]@.wf());
        }
        let (rest, taken) = match take_by_ids(self.players[t].get_hand(), &card_ids) {
            Some(split) => split,
            None => {
                return Err(RuleError::new(RuleErrorType::CardNotFound, "A named card is not in hand"));
            },
        };
        proof {
            old(self)@.lemma_current_hand_distinct();
            lemma_taken_is_picked(ps[t as int]@.hand, card_ids@, rest@, taken@);
        }
        let ghost tk = taken@;
        match self.players[t].meld(taken, suit) {
            Err(_) => {
                proof {
                    lemma_same_views(ps, t as int, self.players@[t as int]);
                    assert(self.players@ =~= ps.update(t as int, self.players@[t as int]));
                }
                return Err(RuleError::new(RuleErrorType::InvalidMeld, "The cards do not form a valid meld"));
            },
            Ok(()) => {},
        }
        let ghost pm = self.players@[t as int]@;
        self.players[t].set_hand(rest);
        proof {
            let p = self.players@[t as int];
            let cur = ps[t as int]@;
            assert(self.players@ == ps.update(t as int, p));
            lemma_player_views_update(ps, t as int, p);
            assert(player_views(ps)[t as int] == cur);
            assert(p@.cards() =~= cur.cards()) by {
                assert forall|x: Card| #[trigger] p@.cards().count(x) == cur.cards().count(x) by {
                    assert(rest@.to_multiset().add(tk.to_multiset()).count(x) == cur.hand.to_multiset().count(x));
                    assert(pm.cards().count(x) == cur.cards().count(x) + tk.to_multiset().count(x));
                    assert(pm.hand == cur.hand);
                    assert(p@ == (PlayerView { hand: rest@, ..pm }));
                }
            }
            assert(p@.cards().add(Multiset::empty()) =~= cur.cards().add(Multiset::empty()));
            lemma_players_update(player_views(ps), t as int, p@, Multiset::empty(), Multiset::empty());
            let np = players_cards(self@.players);
            let op = players_cards(old(self)@.players);
            assert(self@.players == player_views(ps).update(t as int, p@));
            assert forall|x: Card| #[trigger] self@.cards().count(x) == old(self)@.cards().count(x) by {
                assert(np.add(Multiset::empty()).count(x) == op.add(Multiset::empty()).count(x));
            }
            assert(self@.cards() =~= old(self)@.cards());
            assert forall|k: int| 0 <= k < self@.players.len() implies (#[trigger] self@.players[k]).wf() by {
                assert(old(self)@.players[k].wf());
            }
        }
        Ok(())
    }
}

fn any_three(cards: &Vec<Card>) -> (b: bool)
    ensures
        b == exists|i: int| 0 <= i < cards@.len() && (#[trigger] cards@[i]).three(),
{
    let mut i: usize = 0;
    while i < cards.len()
        invariant
            i <= cards.len(),
            forall|k: int| 0 <= k < i ==> !(#[trigger] cards@[k]).three(),
        decreases cards.len() - i,
    {
        if cards[i].is_three() {
            return true;
        }
        i = i + 1;
    }
    false
}

fn any_off_suit(cards: &Vec<Card>, suit: Suit) -> (b: bool)
    ensures
        b == exists|i: int| 0 <= i < cards@.len() && (#[trigger] cards@[i]).normal() && cards@[i].suit != suit,
{
    let mut i: usize = 0;
    while i < cards.len()
        invariant
            i <= cards.len(),
            forall|k: int| 0 <= k < i ==> !((#[trigger] cards@[k]).normal() && cards@[k].suit != suit),
        decreases cards.len() - i,
    {
        if cards[i].is_normal() && cards[i].suit != suit {
            return true;
        }
        i = i + 1;
    }
    false
}

impl Game {
    /// Takes the pack: the cards named by `card_ids` and the top card of the
    /// discard pile are melded under the top card's suit, and the rest of the
    /// pile goes to the player's hand. Legal only in the drawing phase, with
    /// no red three in hand. A frozen pile needs two natural cards offered.
    /// On any refusal the table is as before.
    pub fn take_pack(&mut self, player_num: usize, card_ids: Vec<usize>) -> (r: Result<(), RuleError>)
        requires
            old(self)@.wf(),
        ensures
            final(self)@.wf(),
            final(self)@.cards() == old(self)@.cards(),
            old(self)@.turn_error(player_num as int) matches Some(k) ==> (r matches Err(e) && e.error_type == k),
            old(self)@.turn_error(player_num as int) is None && old(self)@.current().phase != TurnPhase::Draw
                ==> (r matches Err(e) && e.error_type == RuleErrorType::WrongPhase),
            old(self)@.turn_error(player_num as int) is None && old(self)@.current().phase == TurnPhase::Draw
                && red_threes_of(old(self)@.current().hand).len() > 0
                ==> (r matches Err(e) && e.error_type == RuleErrorType::RedThreesPending),
            old(self)@.turn_error(player_num as int) is None && old(self)@.current().phase == TurnPhase::Draw
                && red_threes_of(old(self)@.current().hand).len() == 0 ==> (match old(self)@.claim_refusal(card_ids@) {
                    Some(why) => r matches Err(e) && e.error_type == RuleErrorType::PackClaim(why),
                    None => r is Ok,
                }),
            r is Err ==> final(self)@ == old(self)@,
            r is Ok ==> ({
                let t = old(self)@.player_turn;
                let cur = old(self)@.current();
                let picked = old(self)@.picked(card_ids@);
                let top = old(self)@.top();
                let p = final(self)@.players[t];
                let kept = p.hand.subrange(0, p.hand.len() - (old(self)@.discard.len() - 1));
                &&& final(self)@ == (GameView {
                        players: old(self)@.players.update(t, p),
                        discard: Seq::empty(),
                        frozen: false,
                        ..old(self)@
                    })
                &&& p.hand.len() >= old(self)@.discard.len() - 1
                &&& p.hand == kept + old(self)@.discard.drop_last()
                &&& kept.to_multiset().add(picked.to_multiset()) == cur.hand.to_multiset()
                &&& p.phase == TurnPhase::Throw
                &&& p.melded_from(PlayerView { hand: p.hand, phase: TurnPhase::Throw, ..cur }, picked.push(top), top.suit)
            }),
    {
        self.check_turn(player_num)?;
        let t = self.player_turn;
        let ghost ps = self.players@;
        let ghost g0 = self@;
        proof {
            assert(g0.current() == ps[t as int]@);
            assert(ps[t as int]@.wf());
        }
        if self.players[t].get_phase() != TurnPhase::Draw {
            return Err(RuleError::new(RuleErrorType::WrongPhase, "The pack can only be taken instead of drawing"));
        }
        if self.players[t].check_threes() > 0 {
            return Err(RuleError::new(RuleErrorType::RedThreesPending, "Red threes must be laid aside first"));
        }
        if self.discard.len() == 0 {
            return Err(RuleError::new(RuleErrorType::PackClaim(PackClaimReason::TopCardUnclaimable), "The discard pile is empty"));
        }
        let top = self.discard[self.discard.len() - 1];
        if !top.is_normal() {
            return Err(RuleError::new(RuleErrorType::PackClaim(PackClaimReason::TopCardUnclaimable), "The top card cannot be claimed"));
        }
        let (rest, taken) = match take_by_ids(self.players[t].get_hand(), &card_ids) {
            Some(split) => split,
            None => {
                return Err(RuleError::new(RuleErrorType::PackClaim(PackClaimReason::CardNotFound), "A named card is not in hand"));
            },
        };
        proof {
            g0.lemma_current_hand_distinct();
            lemma_taken_is_picked(ps[t as int]@.hand, card_ids@, rest@, taken@);
        }
        if any_three(&taken) {
            return Err(RuleError::new(RuleErrorType::PackClaim(PackClaimReason::ThreeOffered), "A Three cannot be offered"));
        }
        if any_off_suit(&taken, top.suit) {
            return Err(RuleError::new(RuleErrorType::PackClaim(PackClaimReason::SuitMismatch), "Offered cards must match the top card's suit"));
        }
        if self.frozen {
            let wilds = Meld::count_wilds(&taken);
            proof {
                lemma_wild_count_bound(taken@);
            }
            if taken.len() - wilds < 2 {
                return Err(RuleError::new(RuleErrorType::PackClaim(PackClaimReason::FrozenMinimum), "A frozen pile needs two natural cards"));
            }
        }
        let mut cards = taken;
        let ghost tk = cards@;
        cards.push(top);
        let ghost offered = cards@;
        match self.players[t].meld(cards, top.suit) {
            Err(_) => {
                proof {
                    lemma_same_views(ps, t as int, self.players@[t as int]);
                    assert(self.players@ =~= ps.update(t as int, self.players@[t as int]));
                }
                return Err(RuleError::new(RuleErrorType::PackClaim(PackClaimReason::InvalidMeld), "The offered cards and the top card do not form a valid meld"));
            },
            Ok(()) => {},
        }
        let ghost pm = self.players@[t as int]@;
        let ghost pile = self.discard@;
        let mut hand = rest;
        let ghost kept = hand@;
        self.discard.pop();
        hand.append(&mut self.discard);
        self.players[t].set_hand(hand);
        self.players[t].set_phase(TurnPhase::Throw);
        self.frozen = false;
        proof {
            let p = self.players@[t as int];
            let cur = ps[t as int]@;
            assert(self.players@ == ps.update(t as int, p));
            lemma_player_views_update(ps, t as int, p);
            assert(player_views(ps)[t as int] == cur);
            assert(pile =~= pile.drop_last().push(top));
            assert(offered =~= tk.push(top));
            assert(p@.hand == kept + pile.drop_last());
            assert(p@.hand.subrange(0, kept.len() as int) =~= kept);
            let gain = pile.to_multiset();
            assert(gain == pile.drop_last().to_multiset().insert(top));
            assert forall|x: Card| #[trigger] p@.cards().count(x) == cur.cards().add(gain).count(x) by {
                assert(kept.to_multiset().add(tk.to_multiset()).count(x) == cur.hand.to_multiset().count(x));
                assert(pm.cards().count(x) == cur.cards().count(x) + offered.to_multiset().count(x));
                assert(pm.hand == cur.hand);
                assert(p@ == (PlayerView { hand: kept + pile.drop_last(), phase: TurnPhase::Throw, ..pm }));
                assert(offered.to_multiset() == tk.to_multiset().insert(top));
            }
            assert(p@.cards().add(Multiset::empty()) =~= cur.cards().add(gain));
            lemma_players_update(player_views(ps), t as int, p@, Multiset::empty(), gain);
            let np = players_cards(self@.players);
            let op = players_cards(old(self)@.players);
            assert(self@.players == player_views(ps).update(t as int, p@));
            assert forall|x: Card| #[trigger] self@.cards().count(x) == old(self)@.cards().count(x) by {
                assert(np.add(Multiset::empty()).count(x) == op.add(gain).count(x));
            }
            assert(self@.cards() =~= old(self)@.cards());
            assert forall|k: int| 0 <= k < self@.players.len() implies (#[trigger] self@.players[k]).wf() by {
                assert(old(self)@.players[k].wf());
            }
        }
        Ok(())
    }
}

/// The cards taken off the top of `d`, in the order they are taken, until
/// `m` cards are left.
pub open spec fn drawn_from(d: Seq<Card>, m: int) -> Seq<Card>
    decreases d.len(),
{
    if d.len() == 0 || d.len() <= m {
        Seq::empty()
    } else {
        seq![d.last()] + drawn_from(d.drop_last(), m)
    }
}

pub proof fn lemma_drawn_step(d: Seq<Card>, m: int)
    requires
        0 <= m < d.len(),
    ensures
        drawn_from(d, m) == drawn_from(d, m + 1).push(d[m]),
    decreases d.len(),
{
    let dl = d.drop_last();
    if d.len() == m + 1 {
        assert(drawn_from(dl, m) == Seq::<Card>::empty());
        assert(drawn_from(d, m + 1) == Seq::<Card>::empty());
        assert(drawn_from(d, m) =~= drawn_from(d, m + 1).push(d[m]));
    } else {
        lemma_drawn_step(dl, m);
        assert(dl[m] == d[m]);
        assert(drawn_from(d, m) =~= drawn_from(d, m + 1).push(d[m]));
    }
}

/// Of the cards other than red threes, those drawn down to `m` and those left
/// make up all of the deck's.
pub proof fn lemma_drawn_count(d: Seq<Card>, m: int)
    requires
        0 <= m <= d.len(),
    ensures
        others_of(drawn_from(d, m)).len() + others_of(d.subrange(0, m)).len() == others_of(d).len(),
    decreases d.len() - m,
{
    if m == d.len() {
        assert(drawn_from(d, m) == Seq::<Card>::empty());
        assert(others_of(Seq::<Card>::empty()) =~= Seq::<Card>::empty());
        assert(d.subrange(0, m) =~= d);
    } else {
        lemma_drawn_count(d, m + 1);
        lemma_drawn_step(d, m);
        lemma_red_threes_push(drawn_from(d, m + 1), d[m]);
        assert(d.subrange(0, m + 1) =~= d.subrange(0, m).push(d[m]));
        lemma_red_threes_push(d.subrange(0, m), d[m]);
    }
}

/// Drawing down to `k` is drawing down to `m`, then from what is left.
pub proof fn lemma_drawn_concat(d: Seq<Card>, m: int, k: int)
    requires
        0 <= k <= m <= d.len(),
    ensures
        drawn_from(d, k) == drawn_from(d, m) + drawn_from(d.subrange(0, m), k),
    decreases m - k,
{
    let e = d.subrange(0, m);
    if k == m {
        assert(drawn_from(e, k) == Seq::<Card>::empty());
        assert(drawn_from(d, k) =~= drawn_from(d, m) + drawn_from(e, k));
    } else {
        lemma_drawn_concat(d, m, k + 1);
        lemma_drawn_step(d, k);
        lemma_drawn_step(e, k);
        assert(e[k] == d[k]);
        assert(drawn_from(d, k) =~= drawn_from(d, m) + drawn_from(e, k));
    }
}

impl GameView {
    /// `after` is `self` with the current player's hand and red threes
    /// replaced, the deck cut down and the round perhaps over.
    pub open spec fn drew_into(self, after: GameView, hand: Seq<Card>, red_threes: Seq<Card>) -> bool {
        after == (GameView {
            deck: after.deck,
            round_over: after.round_over,
            players: self.players.update(self.player_turn, PlayerView { hand, red_threes, ..self.current() }),
            ..self
        })
    }
}

impl Game {
    /// Draws from the deck into the current player's hand, laying aside
    /// every red three met on the way. Returns false when the deck ran out
    /// first; the red threes met stay laid aside.
    fn replace_one(&mut self) -> (ok: bool)
        requires
            old(self)@.wf(),
        ensures
            final(self)@.wf(),
            final(self)@.cards() == old(self)@.cards(),
            final(self)@.round_over == old(self)@.round_over,
            final(self)@.deck.len() <= old(self)@.deck.len(),
            final(self)@.deck == old(self)@.deck.subrange(0, final(self)@.deck.len() as int),
            old(self)@.drew_into(
                final(self)@,
                old(self)@.current().hand + others_of(drawn_from(old(self)@.deck, final(self)@.deck.len() as int)),
                old(self)@.current().red_threes + red_threes_of(drawn_from(old(self)@.deck, final(self)@.deck.len() as int)),
            ),
            ok ==> others_of(drawn_from(old(self)@.deck, final(self)@.deck.len() as int)).len() == 1
                && drawn_from(old(self)@.deck, final(self)@.deck.len() as int).len() > 0
                && !drawn_from(old(self)@.deck, final(self)@.deck.len() as int).last().red_three(),
            !ok ==> final(self)@.deck.len() == 0
                && others_of(drawn_from(old(self)@.deck, final(self)@.deck.len() as int)).len() == 0,
    {
        let t = self.player_turn;
        let ghost g0 = self@;
        let ghost d0 = self.deck@;
        let ghost cur = g0.current();
        proof {
            assert(cur == self.players@[t as int]@);
            let p = drawn_from(d0, d0.len() as int);
            assert(p == Seq::<Card>::empty());
            assert(others_of(p) =~= Seq::<Card>::empty());
            assert(red_threes_of(p) =~= Seq::<Card>::empty());
            assert(cur.hand + others_of(p) =~= cur.hand);
            assert(cur.red_threes + red_threes_of(p) =~= cur.red_threes);
            assert(g0.players.update(t as int, PlayerView { hand: cur.hand, red_threes: cur.red_threes, ..cur }) =~= g0.players);
            assert(d0.subrange(0, d0.len() as int) =~= d0);
        }
        while self.deck.len() > 0 && self.deck[self.deck.len() - 1].is_red_three()
            invariant
                g0.wf(),
                t == g0.player_turn,
                d0 == g0.deck,
                cur == g0.current(),
                self.deck@.len() <= d0.len(),
                self.deck@ == d0.subrange(0, self.deck@.len() as int),
                self@.wf(),
                self@.cards() == g0.cards(),
                self@.round_over == g0.round_over,
                others_of(drawn_from(d0, self.deck@.len() as int)).len() == 0,
                g0.drew_into(self@, cur.hand + others_of(drawn_from(d0, self.deck@.len() as int)),
                    cur.red_threes + red_threes_of(drawn_from(d0, self.deck@.len() as int))),
            decreases self.deck.len(),
        {
            let ghost before = self@;
            let ghost ps = self.players@;
            let ghost m = self.deck@.len() as int;
            let c = self.deck.pop().unwrap();
            self.players[t].lay_aside(c);
            proof {
                let p = self.players@[t as int];
                lemma_player_views_update(ps, t as int, p);
                assert(before.players[t as int] == ps[t as int]@);
                assert(p@.cards().add(Multiset::empty()) =~= ps[t as int]@.cards().add(Multiset::empty().insert(c)));
                lemma_players_update(before.players, t as int, p@, Multiset::empty(), Multiset::empty().insert(c));
                let np = players_cards(self@.players);
                let op = players_cards(before.players);
                assert(self@.players == before.players.update(t as int, p@));
                assert(before.deck =~= self@.deck.push(c));
                assert forall|x: Card| #[trigger] self@.cards().count(x) == before.cards().count(x) by {
                    assert(np.add(Multiset::empty()).count(x) == op.add(Multiset::empty().insert(c)).count(x));
                }
                assert(self@.cards() =~= g0.cards());
                assert forall|k: int| 0 <= k < self@.players.len() implies (#[trigger] self@.players[k]).wf() by {
                    assert(before.players[k].wf());
                }
                assert(c == d0[m - 1]);
                lemma_drawn_step(d0, m - 1);
                let q = drawn_from(d0, m);
                lemma_red_threes_push(q, c);
                assert(cur.red_threes + red_threes_of(drawn_from(d0, m - 1)) =~= (cur.red_threes + red_threes_of(q)).push(c));
                assert(self@.players =~= g0.players.update(t as int, PlayerView {
                    hand: cur.hand + others_of(drawn_from(d0, m - 1)),
                    red_threes: cur.red_threes + red_threes_of(drawn_from(d0, m - 1)),
                    ..cur
                }));
                assert(self.deck@ =~= d0.subrange(0, m - 1));
            }
        }
        if self.deck.len() == 0 {
            return false;
        }
        let ghost before = self@;
        let ghost ps = self.players@;
        let ghost m = self.deck@.len() as int;
        let c = self.deck.pop().unwrap();
        self.players[t].push_card(c);
        proof {
            let p = self.players@[t as int];
            lemma_player_views_update(ps, t as int, p);
            assert(before.players[t as int] == ps[t as int]@);
            assert(p@.cards().add(Multiset::empty()) =~= ps[t as int]@.cards().add(Multiset::empty().insert(c)));
            lemma_players_update(before.players, t as int, p@, Multiset::empty(), Multiset::empty().insert(c));
            let np = players_cards(self@.players);
            let op = players_cards(before.players);
            assert(self@.players == before.players.update(t as int, p@));
            assert(before.deck =~= self@.deck.push(c));
            assert forall|x: Card| #[trigger] self@.cards().count(x) == before.cards().count(x) by {
                assert(np.add(Multiset::empty()).count(x) == op.add(Multiset::empty().insert(c)).count(x));
            }
            assert(self@.cards() =~= g0.cards());
            assert forall|k: int| 0 <= k < self@.players.len() implies (#[trigger] self@.players[k]).wf() by {
                assert(before.players[k].wf());
            }
            assert(c == d0[m - 1]);
            lemma_drawn_step(d0, m - 1);
            let q = drawn_from(d0, m);
            lemma_red_threes_push(q, c);
            assert(cur.hand + others_of(drawn_from(d0, m - 1)) =~= (cur.hand + others_of(q)).push(c));
            assert(self@.players =~= g0.players.update(t as int, PlayerView {
                hand: cur.hand + others_of(drawn_from(d0, m - 1)),
                red_threes: cur.red_threes + red_threes_of(drawn_from(d0, m - 1)),
                ..cur
            }));
            assert(self.deck@ =~= d0.subrange(0, m - 1));
        }
        true
    }
}

impl Game {
    /// Draws for `player_num`: red threes met on the way are laid aside and
    /// replaced, and the first other card goes to the hand, which ends the
    /// drawing phase. Legal only in the drawing phase with no red three in
    /// hand. When the deck runs out first the round is over.
    pub fn draw(&mut self, player_num: usize) -> (r: Result<Card, RuleError>)
        requires
            old(self)@.wf(),
        ensures
            final(self)@.wf(),
            final(self)@.cards() == old(self)@.cards(),
            old(self)@.turn_error(player_num as int) matches Some(k) ==> (r matches Err(e) && e.error_type == k),
            old(self)@.turn_error(player_num as int) is None && old(self)@.current().phase != TurnPhase::Draw
                ==> (r matches Err(e) && e.error_type == RuleErrorType::WrongPhase),
            old(self)@.turn_error(player_num as int) is None && old(self)@.current().phase == TurnPhase::Draw
                && red_threes_of(old(self)@.current().hand).len() > 0
                ==> (r matches Err(e) && e.error_type == RuleErrorType::RedThreesPending),
            old(self)@.turn_error(player_num as int) is None && old(self)@.current().phase == TurnPhase::Draw
                && red_threes_of(old(self)@.current().hand).len() == 0 ==> (
                    (r is Ok <==> others_of(old(self)@.deck).len() > 0)
                    && (r is Err ==> (r matches Err(e) && e.error_type == RuleErrorType::DeckExhausted))),
            r matches Err(e) && e.error_type != RuleErrorType::DeckExhausted ==> final(self)@ == old(self)@,
            r matches Err(e) && e.error_type == RuleErrorType::DeckExhausted ==> {
                &&& final(self)@.round_over
                &&& final(self)@.deck.len() == 0
                &&& old(self)@.drew_into(final(self)@, old(self)@.current().hand,
                    old(self)@.current().red_threes + red_threes_of(drawn_from(old(self)@.deck, 0)))
            },
            r matches Ok(c) ==> {
                let drawn = drawn_from(old(self)@.deck, final(self)@.deck.len() as int);
                let mid = GameView {
                    players: final(self)@.players.update(old(self)@.player_turn, PlayerView { phase: TurnPhase::Draw, ..final(self)@.current() }),
                    ..final(self)@
                };
                &&& final(self)@.deck.len() < old(self)@.deck.len()
                &&& final(self)@.deck == old(self)@.deck.subrange(0, final(self)@.deck.len() as int)
                &&& others_of(drawn).len() == 1
                &&& c == drawn.last()
                &&& !c.red_three()
                &&& !final(self)@.round_over
                &&& final(self)@.current().phase == TurnPhase::Throw
                &&& old(self)@.drew_into(mid, old(self)@.current().hand.push(c),
                    old(self)@.current().red_threes + red_threes_of(drawn))
            },
    {
        self.check_turn(player_num)?;
        let t = self.player_turn;
        let ghost g0 = self@;
        proof {
            assert(g0.current() == self.players@[t as int]@);
        }
        if self.players[t].get_phase() != TurnPhase::Draw {
            return Err(RuleError::new(RuleErrorType::WrongPhase, "Already drawn this turn"));
        }
        if self.players[t].check_threes() > 0 {
            return Err(RuleError::new(RuleErrorType::RedThreesPending, "Red threes must be laid aside first"));
        }
        if !self.replace_one() {
            self.round_over = true;
            proof {
                lemma_drawn_count(g0.deck, 0);
                assert(g0.deck.subrange(0, 0) =~= Seq::<Card>::empty());
                assert(others_of(Seq::<Card>::empty()) =~= Seq::<Card>::empty());
                assert(g0.current().hand + others_of(drawn_from(g0.deck, 0)) =~= g0.current().hand);
            }
            return Err(RuleError::new(RuleErrorType::DeckExhausted, "The deck is exhausted"));
        }
        let ghost mid = self@;
        let ghost ps = self.players@;
        let ghost drawn = drawn_from(g0.deck, mid.deck.len() as int);
        proof {
            lemma_drawn_count(g0.deck, mid.deck.len() as int);
            let dl = drawn.drop_last();
            assert(drawn =~= dl.push(drawn.last()));
            lemma_red_threes_push(dl, drawn.last());
            assert(others_of(dl) =~= Seq::<Card>::empty());
            assert(others_of(drawn) =~= seq![drawn.last()]);
            assert(g0.current().hand + others_of(drawn) =~= g0.current().hand.push(drawn.last()));
            assert(mid.current() == self.players@[t as int]@);
            assert(mid.current().hand.len() > 0);
        }
        let hand = self.players[t].get_hand();
        let c = hand[hand.len() - 1];
        self.players[t].set_phase(TurnPhase::Throw);
        proof {
            let p = self.players@[t as int];
            lemma_player_views_update(ps, t as int, p);
            assert(mid.players[t as int] == ps[t as int]@);
            assert(p@.cards().add(Multiset::empty()) =~= ps[t as int]@.cards().add(Multiset::empty()));
            lemma_players_update(mid.players, t as int, p@, Multiset::empty(), Multiset::empty());
            let np = players_cards(self@.players);
            let op = players_cards(mid.players);
            assert(self@.players == mid.players.update(t as int, p@));
            assert forall|x: Card| #[trigger] self@.cards().count(x) == mid.cards().count(x) by {
                assert(np.add(Multiset::empty()).count(x) == op.add(Multiset::empty()).count(x));
            }
            assert(self@.cards() =~= mid.cards());
            assert forall|k: int| 0 <= k < self@.players.len() implies (#[trigger] self@.players[k]).wf() by {
                assert(mid.players[k].wf());
            }
            assert(self@.players.update(t as int, PlayerView { phase: TurnPhase::Draw, ..self@.current() }) =~= mid.players);
            assert(c == drawn.last());
        }
        Ok(c)
    }

    /// Lays aside every red three of the current player's hand and draws a
    /// replacement for each; red threes drawn on the way are laid aside and
    /// replaced in turn. Legal only in the drawing phase. Returns the ids of
    /// the red threes drawn from the deck, in the order they were drawn. When
    /// the deck holds too few other cards the round is over.
    pub fn meld_threes(&mut self, player_num: usize) -> (r: Result<Vec<usize>, RuleError>)
        requires
            old(self)@.wf(),
        ensures
            final(self)@.wf(),
            final(self)@.cards() == old(self)@.cards(),
            old(self)@.turn_error(player_num as int) matches Some(k) ==> (r matches Err(e) && e.error_type == k),
            old(self)@.turn_error(player_num as int) is None && old(self)@.current().phase != TurnPhase::Draw
                ==> (r matches Err(e) && e.error_type == RuleErrorType::WrongPhase),
            r matches Err(e) && e.error_type != RuleErrorType::DeckExhausted ==> final(self)@ == old(self)@,
            old(self)@.turn_error(player_num as int) is None && old(self)@.current().phase == TurnPhase::Draw ==> {
                let cur = old(self)@.current();
                let drawn = drawn_from(old(self)@.deck, final(self)@.deck.len() as int);
                &&& (r is Ok <==> others_of(old(self)@.deck).len() >= red_threes_of(cur.hand).len())
                &&& (r is Err ==> (r matches Err(e) && e.error_type == RuleErrorType::DeckExhausted))
                &&& final(self)@.round_over == r is Err
                &&& final(self)@.deck.len() <= old(self)@.deck.len()
                &&& final(self)@.deck == old(self)@.deck.subrange(0, final(self)@.deck.len() as int)
                &&& old(self)@.drew_into(final(self)@, others_of(cur.hand) + others_of(drawn),
                    cur.red_threes + red_threes_of(cur.hand) + red_threes_of(drawn))
                &&& (r is Err ==> final(self)@.deck.len() == 0)
                &&& (r matches Ok(ids) ==> {
                    &&& ids@ == ids_of(red_threes_of(drawn))
                    &&& others_of(drawn).len() == red_threes_of(cur.hand).len()
                    &&& (drawn.len() > 0 ==> !drawn.last().red_three())
                })
            },
    {
        self.check_turn(player_num)?;
        let t = self.player_turn;
        let ghost g0 = self@;
        let ghost cur = g0.current();
        proof {
            assert(cur == self.players@[t as int]@);
        }
        if self.players[t].get_phase() != TurnPhase::Draw {
            return Err(RuleError::new(RuleErrorType::WrongPhase, "Red threes are laid aside before drawing"));
        }
        let ghost ps = self.players@;
        let n = self.players[t].meld_red_threes();
        let base = self.players[t].get_red_threes().len();
        proof {
            let p = self.players@[t as int];
            lemma_player_views_update(ps, t as int, p);
            assert(p@.cards().add(Multiset::empty()) =~= cur.cards().add(Multiset::empty()));
            lemma_players_update(g0.players, t as int, p@, Multiset::empty(), Multiset::empty());
            let np = players_cards(self@.players);
            let op = players_cards(g0.players);
            assert(self@.players == g0.players.update(t as int, p@));
            assert forall|x: Card| #[trigger] self@.cards().count(x) == g0.cards().count(x) by {
                assert(np.add(Multiset::empty()).count(x) == op.add(Multiset::empty()).count(x));
            }
            assert(self@.cards() =~= g0.cards());
            assert forall|k: int| 0 <= k < self@.players.len() implies (#[trigger] self@.players[k]).wf() by {
                assert(g0.players[k].wf());
            }
            let e = drawn_from(g0.deck, g0.deck.len() as int);
            assert(e == Seq::<Card>::empty());
            assert(others_of(e) =~= Seq::<Card>::empty());
            assert(red_threes_of(e) =~= Seq::<Card>::empty());
            assert(others_of(cur.hand) + others_of(e) =~= others_of(cur.hand));
            assert(cur.red_threes + red_threes_of(cur.hand) + red_threes_of(e) =~= cur.red_threes + red_threes_of(cur.hand));
            assert(g0.deck.subrange(0, g0.deck.len() as int) =~= g0.deck);
        }
        let mut left: usize = 0;
        while left < n
            invariant
                g0 == old(self)@,
                g0.wf(),
                t == g0.player_turn,
                cur == g0.current(),
                g0.turn_error(player_num as int) is None,
                cur.phase == TurnPhase::Draw,
                n == red_threes_of(cur.hand).len(),
                base == cur.red_threes.len() + n,
                left <= n,
                self@.wf(),
                self@.cards() == g0.cards(),
                !self@.round_over,
                self@.deck.len() <= g0.deck.len(),
                self@.deck == g0.deck.subrange(0, self@.deck.len() as int),
                g0.drew_into(self@, others_of(cur.hand) + others_of(drawn_from(g0.deck, self@.deck.len() as int)),
                    cur.red_threes + red_threes_of(cur.hand) + red_threes_of(drawn_from(g0.deck, self@.deck.len() as int))),
                others_of(drawn_from(g0.deck, self@.deck.len() as int)).len() == left,
                drawn_from(g0.deck, self@.deck.len() as int).len() > 0
                    ==> !drawn_from(g0.deck, self@.deck.len() as int).last().red_three(),
            decreases n - left,
        {
            let ghost before = self@;
            let ghost m = self@.deck.len() as int;
            let ok = self.replace_one();
            proof {
                let k = self@.deck.len() as int;
                let p = drawn_from(g0.deck, m);
                let q = drawn_from(before.deck, k);
                assert(before.deck.subrange(0, k) =~= g0.deck.subrange(0, k));
                lemma_drawn_concat(g0.deck, m, k);
                lemma_red_threes_concat(p, q);
                assert(before.current() == PlayerView {
                    hand: others_of(cur.hand) + others_of(p),
                    red_threes: cur.red_threes + red_threes_of(cur.hand) + red_threes_of(p),
                    ..cur
                });
                assert(others_of(cur.hand) + others_of(p) + others_of(q) =~= others_of(cur.hand) + others_of(p + q));
                assert(cur.red_threes + red_threes_of(cur.hand) + red_threes_of(p) + red_threes_of(q)
                    =~= cur.red_threes + red_threes_of(cur.hand) + red_threes_of(p + q));
                assert(self@.players =~= g0.players.update(t as int, PlayerView {
                    hand: others_of(cur.hand) + others_of(p + q),
                    red_threes: cur.red_threes + red_threes_of(cur.hand) + red_threes_of(p + q),
                    ..cur
                }));
                if ok {
                    assert((p + q).last() == q.last());
                }
            }
            if !ok {
                self.round_over = true;
                proof {
                    lemma_drawn_count(g0.deck, 0);
                    assert(g0.deck.subrange(0, 0) =~= Seq::<Card>::empty());
                    assert(others_of(Seq::<Card>::empty()) =~= Seq::<Card>::empty());
                }
                return Err(RuleError::new(RuleErrorType::DeckExhausted, "The deck is exhausted"));
            }
            left = left + 1;
        }
        let ghost drawn = drawn_from(g0.deck, self@.deck.len() as int);
        proof {
            lemma_drawn_count(g0.deck, self@.deck.len() as int);
            assert(self@.current().red_threes == cur.red_threes + red_threes_of(cur.hand) + red_threes_of(drawn));
            assert(self.players@[t as int]@ == self@.current());
        }
        let red = self.players[t].get_red_threes();
        let mut ids: Vec<usize> = Vec::new();
        let mut j: usize = base;
        while j < red.len()
            invariant
                base <= j <= red.len(),
                red@ == cur.red_threes + red_threes_of(cur.hand) + red_threes_of(drawn),
                base == cur.red_threes.len() + red_threes_of(cur.hand).len(),
                ids@ == ids_of(red@.subrange(base as int, j as int)),
            decreases red.len() - j,
        {
            ids.push(red[j].id);
            j = j + 1;
            assert(ids@ =~= ids_of(red@.subrange(base as int, j as int)));
        }
        proof {
            assert(red@.subrange(base as int, j as int) =~= red_threes_of(drawn));
        }
        Ok(ids)
    }
}

impl Game {
    /// Deals `num` cards to each player, one at a time round the table from
    /// player 0, then turns up the top card of the deck, and goes on turning
    /// while it is not a natural card and the deck lasts. Player 0 is then to
    /// draw. Refused once dealt, or unless the deck holds more than `num`
    /// cards per player.
    pub fn deal(&mut self, num: usize) -> (r: Result<(), RuleError>)
        requires
            old(self)@.wf(),
        ensures
            final(self)@.wf(),
            final(self)@.cards() == old(self)@.cards(),
            r is Ok <==> !old(self)@.dealt && num * old(self)@.players.len() < old(self)@.deck.len(),
            r matches Err(e) ==> e.error_type == RuleErrorType::InvalidDeal && final(self)@ == old(self)@,
            r is Ok ==> {
                &&& final(self)@.dealt
                &&& final(self)@.player_turn == 0
                &&& final(self)@.frozen == old(self)@.frozen
                &&& final(self)@.round_over == old(self)@.round_over
                &&& final(self)@.players.len() == old(self)@.players.len()
                &&& forall|i: int| 0 <= i < final(self)@.players.len() ==> {
                    let p = #[trigger] final(self)@.players[i];
                    let q = old(self)@.players[i];
                    &&& p == (PlayerView { hand: p.hand, phase: p.phase, ..q })
                    &&& p.hand.len() == q.hand.len() + num
                    &&& p.hand.subrange(0, q.hand.len() as int) == q.hand
                    &&& forall|k: int| 0 <= k < num ==> #[trigger] p.hand[q.hand.len() + k]
                        == old(self)@.deck[old(self)@.deck.len() - 1 - (k * final(self)@.players.len() + i)]
                    &&& p.phase == if i == 0 { TurnPhase::Draw } else { q.phase }
                }
                &&& final(self)@.deck.len() + num * old(self)@.players.len() < old(self)@.deck.len()
                &&& final(self)@.deck == old(self)@.deck.subrange(0, final(self)@.deck.len() as int)
                &&& final(self)@.discard.len() > old(self)@.discard.len()
                &&& final(self)@.discard.subrange(0, old(self)@.discard.len() as int) == old(self)@.discard
                &&& (final(self)@.top().normal() || final(self)@.deck.len() == 0)
            },
    {
        let n = self.players.len();
        if self.dealt || self.deck.len() == 0 || num > (self.deck.len() - 1) / n {
            proof {
                let len = old(self)@.deck.len() as int;
                if len > 0 && num > (len - 1) / (n as int) {
                    assert(num * n >= len) by (nonlinear_arith)
                        requires num > (len - 1) / (n as int), n > 0, len > 0;
                }
            }
            return Err(RuleError::new(RuleErrorType::InvalidDeal, "Cannot deal that many cards now"));
        }
        let ghost g0 = self@;
        let ghost len0 = self.deck@.len() as int;
        proof {
            assert(num * n <= len0 - 1) by (nonlinear_arith)
                requires num <= (len0 - 1) / (n as int), n > 0, len0 > 0;
        }
        let mut round: usize = 0;
        while round < num
            invariant
                g0 == old(self)@,
                g0.wf(),
                n == g0.players.len(),
                len0 == g0.deck.len(),
                num * n <= len0 - 1,
                round <= num,
                self@.wf(),
                self@.cards() == g0.cards(),
                self@ == (GameView { deck: self@.deck, players: self@.players, ..g0 }),
                self@.players.len() == n,
                self@.deck.len() == len0 - round * n,
                self@.deck == g0.deck.subrange(0, self@.deck.len() as int),
                forall|x: int| 0 <= x < n ==> {
                    let p = #[trigger] self@.players[x];
                    let q = g0.players[x];
                    &&& p == (PlayerView { hand: p.hand, ..q })
                    &&& p.hand.len() == q.hand.len() + round
                    &&& p.hand.subrange(0, q.hand.len() as int) == q.hand
                    &&& forall|k: int| 0 <= k < round ==> #[trigger] p.hand[q.hand.len() + k] == g0.deck[len0 - 1 - (k * n + x)]
                },
            decreases num - round,
        {
            proof {
                assert((round + 1) * n <= num * n) by (nonlinear_arith)
                    requires round < num, n > 0;
                assert((round + 1) * n == round * n + n) by (nonlinear_arith);
            }
            let mut i: usize = 0;
            while i < n
                invariant
                    g0.wf(),
                    n == g0.players.len(),
                    len0 == g0.deck.len(),
                    (round + 1) * n <= len0 - 1,
                    (round + 1) * n == round * n + n,
                    i <= n,
                    self@.wf(),
                    self@.cards() == g0.cards(),
                    self@ == (GameView { deck: self@.deck, players: self@.players, ..g0 }),
                    self@.players.len() == n,
                    self@.deck.len() == len0 - round * n - i,
                    self@.deck == g0.deck.subrange(0, self@.deck.len() as int),
                    forall|x: int| 0 <= x < n ==> {
                        let p = #[trigger] self@.players[x];
                        let q = g0.players[x];
                        &&& p == (PlayerView { hand: p.hand, ..q })
                        &&& p.hand.len() == q.hand.len() + round + if x < i { 1int } else { 0int }
                        &&& p.hand.subrange(0, q.hand.len() as int) == q.hand
                        &&& forall|k: int| 0 <= k < round + (if x < i { 1int } else { 0int }) ==> #[trigger] p.hand[q.hand.len() + k]
                            == g0.deck[len0 - 1 - (k * n + x)]
                    },
                decreases n - i,
            {
                let ghost before = self@;
                let ghost ps = self.players@;
                let c = self.deck.pop().unwrap();
                proof {
                    assert(before.players[i as int] == ps[i as int]@);
                }
                self.players[i].push_card(c);
                proof {
                    let p = self.players@[i as int];
                    lemma_player_views_update(ps, i as int, p);
                    assert(p@.cards().add(Multiset::empty()) =~= ps[i as int]@.cards().add(Multiset::empty().insert(c)));
                    lemma_players_update(before.players, i as int, p@, Multiset::empty(), Multiset::empty().insert(c));
                    let np = players_cards(self@.players);
                    let op = players_cards(before.players);
                    assert(self@.players == before.players.update(i as int, p@));
                    assert(before.deck =~= self@.deck.push(c));
                    assert forall|x: Card| #[trigger] self@.cards().count(x) == before.cards().count(x) by {
                        assert(np.add(Multiset::empty()).count(x) == op.add(Multiset::empty().insert(c)).count(x));
                    }
                    assert(self@.cards() =~= g0.cards());
                    assert forall|k: int| 0 <= k < self@.players.len() implies (#[trigger] self@.players[k]).wf() by {
                        assert(before.players[k].wf());
                    }
                    assert(self@.deck =~= g0.deck.subrange(0, self@.deck.len() as int));
                    let q = g0.players[i as int];
                    assert(p@.hand.subrange(0, q.hand.len() as int) =~= q.hand) by {
                        assert(before.players[i as int].hand.subrange(0, q.hand.len() as int) == q.hand);
                    }
                    assert(c == g0.deck[len0 - 1 - (round * n + i)]);
                    assert forall|x: int| 0 <= x < n implies {
                        let p = #[trigger] self@.players[x];
                        let q = g0.players[x];
                        forall|k: int| 0 <= k < round + (if x < i + 1 { 1int } else { 0int }) ==> #[trigger] p.hand[q.hand.len() + k]
                            == g0.deck[len0 - 1 - (k * n + x)]
                    } by {
                        if x != i {
                            assert(self@.players[x] == before.players[x]);
                        } else {
                            let bq = before.players[x];
                            assert forall|k: int| 0 <= k < round + 1 implies #[trigger] p@.hand[q.hand.len() + k]
                                == g0.deck[len0 - 1 - (k * n + x)] by {
                                if k < round {
                                    assert(p@.hand[q.hand.len() + k] == bq.hand[q.hand.len() + k]);
                                }
                            }
                        }
                    }
                }
                i = i + 1;
            }
            round = round + 1;
        }
        let ghost before = self@;
        let ghost pl = self@.players;
        let c = self.deck.pop().unwrap();
        self.discard.push(c);
        proof {
            assert(before.deck =~= self@.deck.push(c));
            assert(self@.cards() =~= g0.cards());
            assert(self@.deck =~= g0.deck.subrange(0, self@.deck.len() as int));
            assert(self@.discard.subrange(0, g0.discard.len() as int) =~= g0.discard);
        }
        while self.deck.len() > 0 && !self.discard[self.discard.len() - 1].is_normal()
            invariant
                g0 == old(self)@,
                g0.wf(),
                n == g0.players.len(),
                len0 == g0.deck.len(),
                self@.players == pl,
                pl.len() == n,
                forall|x: int| 0 <= x < n ==> {
                    let p = #[trigger] pl[x];
                    let q = g0.players[x];
                    &&& p == (PlayerView { hand: p.hand, ..q })
                    &&& p.hand.len() == q.hand.len() + num
                    &&& p.hand.subrange(0, q.hand.len() as int) == q.hand
                },
                self@.wf(),
                self@.cards() == g0.cards(),
                self@ == (GameView { deck: self@.deck, players: self@.players, discard: self@.discard, ..g0 }),
                self@.deck.len() + num * n < len0,
                self@.deck == g0.deck.subrange(0, self@.deck.len() as int),
                self@.discard.len() > g0.discard.len(),
                self@.discard.subrange(0, g0.discard.len() as int) == g0.discard,
            decreases self.deck.len(),
        {
            let ghost before = self@;
            let c = self.deck.pop().unwrap();
            self.discard.push(c);
            proof {
                assert(before.deck =~= self@.deck.push(c));
                assert(self@.cards() =~= g0.cards());
                assert(self@.deck =~= g0.deck.subrange(0, self@.deck.len() as int));
                assert(self@.discard.subrange(0, g0.discard.len() as int) =~= g0.discard) by {
                    assert(before.discard.subrange(0, g0.discard.len() as int) == g0.discard);
                }
            }
        }
        let ghost before = self@;
        let ghost ps = self.players@;
        proof {
            assert(before.players[0] == ps[0]@);
        }
        self.players[0].set_phase(TurnPhase::Draw);
        self.player_turn = 0;
        self.dealt = true;
        proof {
            let p = self.players@[0];
            lemma_player_views_update(ps, 0, p);
            assert(p@.cards().add(Multiset::empty()) =~= ps[0]@.cards().add(Multiset::empty()));
            lemma_players_update(before.players, 0, p@, Multiset::empty(), Multiset::empty());
            let np = players_cards(self@.players);
            let op = players_cards(before.players);
            assert(self@.players == before.players.update(0, p@));
            assert forall|x: Card| #[trigger] self@.cards().count(x) == before.cards().count(x) by {
                assert(np.add(Multiset::empty()).count(x) == op.add(Multiset::empty()).count(x));
            }
            assert(self@.cards() =~= g0.cards());
            assert forall|k: int| 0 <= k < self@.players.len() implies (#[trigger] self@.players[k]).wf() by {
                assert(before.players[k].wf());
            }
            assert forall|i: int| 0 <= i < self@.players.len() implies {
                let p = #[trigger] self@.players[i];
                let q = old(self)@.players[i];
                &&& p == (PlayerView { hand: p.hand, phase: p.phase, ..q })
                &&& p.hand.len() == q.hand.len() + num
                &&& p.hand.subrange(0, q.hand.len() as int) == q.hand
                &&& p.phase == if i == 0 { TurnPhase::Draw } else { q.phase }
            } by {
                assert(pl[i].hand.len() == g0.players[i].hand.len() + num);
            }
        }
        Ok(())
    }
}

impl Game {
    /// Takes the top card off the deck, if there is one.
    pub fn pop_deck(&mut self) -> (r: Option<Card>)
        ensures
            old(self)@.deck.len() == 0 ==> r is None && final(self)@ == old(self)@,
            old(self)@.deck.len() > 0 ==> r == Some(old(self)@.deck.last())
                && final(self)@ == (GameView { deck: old(self)@.deck.drop_last(), ..old(self)@ }),
    {
        let r = self.deck.pop();
        proof {
            if old(self)@.deck.len() > 0 {
                assert(self@.deck =~= old(self)@.deck.drop_last());
            }
        }
        r
    }

    /// Puts `card` on top of the deck.
    pub fn push_deck(&mut self, card: Card)
        ensures
            final(self)@ == (GameView { deck: old(self)@.deck.push(card), ..old(self)@ }),
    {
        self.deck.push(card);
    }

    /// Puts `card` on top of the discard pile and passes the turn. A wild
    /// card freezes the pile.
    pub fn push_discard(&mut self, card: Card)
        requires
            old(self)@.wf(),
        ensures
            final(self)@ == (GameView {
                discard: old(self)@.discard.push(card),
                frozen: old(self)@.frozen || card.wild(),
                player_turn: (old(self)@.player_turn + 1) % (old(self)@.players.len() as int),
                players: old(self)@.players.update(
                    (old(self)@.player_turn + 1) % (old(self)@.players.len() as int),
                    PlayerView { phase: TurnPhase::Draw, ..old(self)@.players[(old(self)@.player_turn + 1) % (old(self)@.players.len() as int)] },
                ),
                ..old(self)@
            }),
    {
        self.next_turn();
        if card.is_wild() {
            self.frozen = true;
        }
        self.discard.push(card);
    }
}

proof fn lemma_no_red_threes(s: Seq<Card>)
    requires
        forall|i: int| 0 <= i < s.len() ==> !(#[trigger] s[i]).red_three(),
    ensures
        red_threes_of(s).len() == 0,
    decreases s.len(),
{
    if s.len() > 0 {
        let d = s.drop_last();
        assert forall|i: int| 0 <= i < d.len() implies !(#[trigger] d[i]).red_three() by {
            assert(d[i] == s[i]);
        }
        lemma_no_red_threes(d);
        lemma_red_threes_push(d, s.last());
        assert(s =~= d.push(s.last()));
    } else {
        assert(red_threes_of(s) =~= Seq::<Card>::empty());
    }
}

proof fn lemma_no_cards(ps: Seq<PlayerView>, n: nat)
    requires
        n <= ps.len(),
        forall|x: int| 0 <= x < ps.len() ==> (#[trigger] ps[x]).cards() == Multiset::<Card>::empty(),
    ensures
        players_cards(ps.subrange(0, n as int)) == Multiset::<Card>::empty(),
    decreases n,
{
    if n > 0 {
        lemma_no_cards(ps, (n - 1) as nat);
        assert(ps.subrange(0, n as int).drop_last() =~= ps.subrange(0, n - 1));
        assert(players_cards(ps.subrange(0, n as int)) =~= Multiset::<Card>::empty());
    } else {
        assert(ps.subrange(0, 0) =~= Seq::<PlayerView>::empty());
    }
}

/// In a well-formed table no two cards share an id and no card is held
/// twice, whoever holds them.
pub proof fn law_no_card_twice(g: GameView, a: Card, b: Card)
    requires
        g.wf(),
        g.cards().count(a) > 0,
        g.cards().count(b) > 0,
        a.id == b.id,
    ensures
        a == b,
        g.cards().count(a) == 1,
{
}

/// In a well-formed table every meld, committed or under construction,
/// holds no more wild cards than natural ones.
pub proof fn law_wild_ratio(g: GameView, i: int, k: int)
    requires
        g.wf(),
        0 <= i < g.players.len(),
        0 <= k < SLOTS,
    ensures
        g.players[i].melds[k] matches Some(m) ==> wild_count(m.cards_view()) <= natural_count(m.cards_view()),
        g.players[i].temp matches Some(t) ==> wild_count(t.cards_view()) <= natural_count(t.cards_view()),
{
    assert(g.players[i].wf());
}

/// Whether or not the pile is frozen, a natural top card can be taken with
/// two natural cards of its suit from the hand: the player's meld of that
/// suit, if there is one, stays valid, since only natural cards join it.
pub proof fn law_claim_with_two_naturals(g: GameView, a: int, b: int)
    requires
        g.wf(),
        g.discard.len() > 0,
        g.top().normal(),
        0 <= a < g.current().hand.len(),
        0 <= b < g.current().hand.len(),
        a != b,
        g.current().hand[a].normal() && g.current().hand[a].suit == g.top().suit,
        g.current().hand[b].normal() && g.current().hand[b].suit == g.top().suit,
    ensures
        g.claim_refusal(seq![g.current().hand[a].id, g.current().hand[b].id]) is None,
{
    let hand = g.current().hand;
    let ca = hand[a];
    let cb = hand[b];
    let top = g.top();
    let suit = top.suit;
    let ids = seq![ca.id, cb.id];
    g.lemma_current_hand_distinct();
    if a < b {
        assert(hand[a].id != hand[b].id);
    } else {
        assert(hand[b].id != hand[a].id);
    }
    let hid = ids_of(hand);
    assert(hid[a] == ca.id && hid[b] == cb.id);
    assert(hid.to_multiset().count(ca.id) > 0);
    assert(hid.to_multiset().count(cb.id) > 0);
    assert(ids =~= Seq::<usize>::empty().push(ca.id).push(cb.id));
    assert(ids.to_multiset() =~= Multiset::<usize>::empty().insert(ca.id).insert(cb.id));
    assert(g.ids_in_hand(ids));
    let picked = g.picked(ids);
    assert(picked[0] == ca) by {
        let i = choose|i: int| 0 <= i < hand.len() && hand[i].id == ca.id;
        if i < a {
            assert(hand[i].id != hand[a].id);
        } else if a < i {
            assert(hand[a].id != hand[i].id);
        }
    }
    assert(picked[1] == cb) by {
        let i = choose|i: int| 0 <= i < hand.len() && hand[i].id == cb.id;
        if i < b {
            assert(hand[i].id != hand[b].id);
        } else if b < i {
            assert(hand[b].id != hand[i].id);
        }
    }
    assert(picked =~= seq![ca, cb]);
    let s = picked.push(top);
    assert(s =~= Seq::<Card>::empty().push(ca).push(cb).push(top));
    crate::meld::lemma_counts_push(Seq::<Card>::empty(), ca);
    crate::meld::lemma_counts_push(Seq::<Card>::empty().push(ca), cb);
    crate::meld::lemma_counts_push(Seq::<Card>::empty().push(ca).push(cb), top);
    assert(wild_count(Seq::<Card>::empty()) == 0);
    assert(picked =~= Seq::<Card>::empty().push(ca).push(cb));
    assert(wild_count(picked) == 0);
    assert(wild_count(s) == 0);
    assert(crate::meld::fits_suit(s, suit));
    let cur = g.current();
    assert(cur.wf());
    match cur.meld_for(suit) {
        Some(m) => {
            assert(cur.melds[crate::player::suit_slot(suit)] == Some(m));
            assert(m.wf());
            assert(m.key() == suit);
            let mc = m.cards_view();
            crate::meld::lemma_counts_concat(mc, s);
            crate::meld::lemma_wild_count_bound(mc);
            assert forall|i: int| 0 <= i < (mc + s).len() implies !(#[trigger] (mc + s)[i]).three()
                && ((mc + s)[i].normal() ==> (mc + s)[i].suit == suit) by {
                if i < mc.len() {
                    assert((mc + s)[i] == mc[i]);
                } else {
                    assert((mc + s)[i] == s[i - mc.len()]);
                }
            }
            assert(m.accepts(s));
        },
        None => {
            assert(crate::meld::valid_meld(suit, s));
        },
    }
}

} // verus!
