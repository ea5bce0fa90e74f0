//! A hosted game before and while it runs: seats that lend player handles
//! out and take them back, and the administrator's commands.
use vstd::prelude::*;
use vstd::multiset::Multiset;
use crate::card::{Card, copy_cards};
use crate::deck::{fresh_deck, make_deck};
use crate::errors::{AdminError, AdminErrorType, PlayerError, PlayerErrorType};
use crate::messages::{PlayerMessage, PlayerMessageType};
use crate::player::Player;
use crate::setup::GameSettings;

verus! {

broadcast use {vstd::seq_lib::group_to_multiset_ensures, vstd::multiset::group_multiset_axioms};

/// Packs in a hosted game's deck.
pub const SESSION_PACKS: u8 = 2;
/// Jokers in a hosted game's deck.
pub const SESSION_JOKERS: u8 = 4;
/// Cards in a hosted game's deck.
pub const SESSION_DECK: usize = 108;

/// Relies on `rand::random::<u32>`: any value may come back.
#[verifier::external_body]
fn random_game_id() -> (id: u32) {
    rand::random::<u32>()
}

/// The cards in the hand of a seated player.
pub open spec fn seat_hand(s: Option<Player>) -> Multiset<Card> {
    match s {
        Some(p) => p@.hand.to_multiset(),
        None => Multiset::empty(),
    }
}

/// The cards in the hands of all seated players.
pub open spec fn seat_hands(ss: Seq<Option<Player>>) -> Multiset<Card>
    decreases ss.len(),
{
    if ss.len() == 0 {
        Multiset::empty()
    } else {
        seat_hands(ss.drop_last()).add(seat_hand(ss.last()))
    }
}

pub proof fn lemma_seat_hands_update(ss: Seq<Option<Player>>, i: int, x: Option<Player>)
    requires
        0 <= i < ss.len(),
    ensures
        seat_hands(ss.update(i, x)).add(seat_hand(ss[i])) == seat_hands(ss).add(seat_hand(x)),
    decreases ss.len(),
{
    let u = ss.update(i, x);
    let d = ss.drop_last();
    assert(seat_hands(ss) == seat_hands(d).add(seat_hand(ss.last())));
    if i == ss.len() - 1 {
        assert(u.drop_last() =~= d);
        assert(seat_hands(u) == seat_hands(d).add(seat_hand(x)));
        assert(ss[i] == ss.last());
    } else {
        lemma_seat_hands_update(d, i, x);
        assert(u.drop_last() =~= d.update(i, x));
        assert(u.last() == ss.last());
        assert(d[i] == ss[i]);
        assert(seat_hands(u) == seat_hands(d.update(i, x)).add(seat_hand(ss.last())));
        assert forall|c: Card| #[trigger] seat_hands(u).add(seat_hand(ss[i])).count(c) == seat_hands(ss).add(seat_hand(x)).count(c) by {
            assert(seat_hands(d.update(i, x)).add(seat_hand(ss[i])).count(c) == seat_hands(d).add(seat_hand(x)).count(c));
        }
    }
    assert(seat_hands(u).add(seat_hand(ss[i])) =~= seat_hands(ss).add(seat_hand(x)));
}

pub proof fn lemma_seat_hands_empty(ss: Seq<Option<Player>>)
    requires
        forall|i: int| 0 <= i < ss.len() ==> seat_hand(#[trigger] ss[i]) == Multiset::<Card>::empty(),
    ensures
        seat_hands(ss) == Multiset::<Card>::empty(),
    decreases ss.len(),
{
    if ss.len() > 0 {
        let d = ss.drop_last();
        assert forall|i: int| 0 <= i < d.len() implies seat_hand(#[trigger] d[i]) == Multiset::<Card>::empty() by {
            assert(d[i] == ss[i]);
        }
        lemma_seat_hands_empty(d);
        assert(seat_hand(ss[ss.len() - 1]) == Multiset::<Card>::empty());
        assert(seat_hands(ss) =~= Multiset::<Card>::empty());
    }
}

/// Commands from the administrator to a running game.
pub enum AdminMessage {
    TakePlayer(u8),
    InsertPlayer(Player),
    PauseGame,
    ResumeGame,
    EndGame,
}

/// The game's answer to each command.
pub enum AdminReply {
    TakePlayer(Result<Player, PlayerError>),
    InsertPlayer(Result<(), PlayerError>),
    PauseGame(Result<(), ()>),
    ResumeGame(Result<(), ()>),
    EndGame(Result<(), ()>),
}

#[derive(Debug)]
pub struct Admin {
    game_id: u32,
    running: bool,
    paused: bool,
    points_to_win: u16,
    canastas_out: u8,
    team_size: u8,
    players: Vec<Option<Player>>,
    deck: Vec<Card>,
    discard: Vec<Card>,
}

impl Admin {
    pub closed spec fn id(&self) -> u32 {
        self.game_id
    }

    pub closed spec fn is_running(&self) -> bool {
        self.running
    }

    pub closed spec fn is_paused(&self) -> bool {
        self.paused
    }

    /// The seats; an empty seat's player is lent out.
    pub closed spec fn seats(&self) -> Seq<Option<Player>> {
        self.players@
    }

    pub closed spec fn deck_view(&self) -> Seq<Card> {
        self.deck@
    }

    pub closed spec fn discard_view(&self) -> Seq<Card> {
        self.discard@
    }

    pub closed spec fn rules(&self) -> (u16, u8, u8) {
        (self.points_to_win, self.canastas_out, self.team_size)
    }

    /// Every seated player belongs to this game and sits in their own seat.
    pub open spec fn wf(&self) -> bool {
        &&& 2 <= self.seats().len() <= 255
        &&& forall|i: int| 0 <= i < self.seats().len() ==> (#[trigger] self.seats()[i] matches Some(p)
            ==> p@.game_id == self.id() && p@.player_num == i)
    }

    /// A freshly set up game for `s`: every seat filled, each player on team
    /// `number % team size` with `deal_size` cards, not yet running.
    pub open spec fn settings_match(&self, s: &GameSettings) -> bool {
        &&& self.seats().len() == s.num_players
        &&& self.rules() == (s.points_to_win, s.canastas_out, s.team_size)
        &&& !self.is_running()
        &&& !self.is_paused()
        &&& self.discard_view().len() == 0
        &&& self.deck_view().len() == SESSION_DECK - s.num_players * s.deal_size
        &&& self.deck_view().to_multiset().add(seat_hands(self.seats()))
            == fresh_deck(SESSION_PACKS as nat, SESSION_JOKERS as nat).to_multiset()
        &&& forall|i: int| 0 <= i < self.seats().len() ==> (#[trigger] self.seats()[i] matches Some(p) && {
            &&& p@.wf()
            &&& p@.team_num == i % (s.team_size as int)
            &&& p@.hand.len() == s.deal_size
        })
    }

    /// Sets up a game for accepted settings: seats each player and deals.
    pub fn new(settings: &GameSettings) -> (a: Admin)
        requires
            settings.refusal() is None,
        ensures
            a.wf(),
            a.settings_match(settings),
    {
        let game_id = random_game_id();
        let n = settings.num_players;
        let mut deck = make_deck(crate::session::SESSION_PACKS, crate::session::SESSION_JOKERS);
        proof {
            assert(deck@.to_multiset().len() == deck@.len());
            assert(fresh_deck(2, 4).to_multiset().len() == fresh_deck(2, 4).len());
            assert(deck@.len() == SESSION_DECK);
        }
        let mut players: Vec<Option<Player>> = Vec::new();
        let mut k: u8 = 0;
        while k < n
            invariant
                k <= n,
                settings.refusal() is None,
                n == settings.num_players,
                players@.len() == k,
                forall|i: int| 0 <= i < k ==> (#[trigger] players@[i] matches Some(p) && {
                    &&& p@.wf()
                    &&& p@.game_id == game_id
                    &&& p@.player_num == i
                    &&& p@.team_num == i % (settings.team_size as int)
                    &&& p@.hand.len() == 0
                }),
            decreases n - k,
        {
            players.push(Some(Player::new(game_id, k, k % settings.team_size)));
            k = k + 1;
        }
        proof {
            assert forall|i: int| 0 <= i < players@.len() implies seat_hand(#[trigger] players@[i]) == Multiset::<Card>::empty() by {
                assert(players@[i] matches Some(p) && p@.hand.len() == 0);
                if let Some(p) = players@[i] {
                    assert(p@.hand =~= Seq::<Card>::empty());
                }
            }
            lemma_seat_hands_empty(players@);
            assert(deck@.to_multiset().add(seat_hands(players@)) =~= deck@.to_multiset());
        }
        let ghost fresh = fresh_deck(SESSION_PACKS as nat, SESSION_JOKERS as nat).to_multiset();
        let mut round: u8 = 0;
        while round < settings.deal_size
            invariant
                deck@.to_multiset().add(seat_hands(players@)) == fresh,
                round <= settings.deal_size,
                settings.refusal() is None,
                n == settings.num_players,
                players@.len() == n,
                deck@.len() == SESSION_DECK - round * n,
                forall|i: int| 0 <= i < n ==> (#[trigger] players@[i] matches Some(p) && {
                    &&& p@.wf()
                    &&& p@.game_id == game_id
                    &&& p@.player_num == i
                    &&& p@.team_num == i % (settings.team_size as int)
                    &&& p@.hand.len() == round
                }),
            decreases settings.deal_size - round,
        {
            proof {
                assert((round + 1) * n <= settings.deal_size * n) by (nonlinear_arith)
                    requires round < settings.deal_size, n >= 0;
                assert(n * settings.deal_size < SESSION_DECK);
                assert((round + 1) * n == round * n + n) by (nonlinear_arith);
                assert(settings.deal_size * n == n * settings.deal_size) by (nonlinear_arith);
            }
            let mut i: usize = 0;
            while i < n as usize
                invariant
                    deck@.to_multiset().add(seat_hands(players@)) == fresh,
                    i <= n,
                    n == settings.num_players,
                    (round + 1) * n <= SESSION_DECK,
                    (round + 1) * n == round * n + n,
                    players@.len() == n,
                    deck@.len() == SESSION_DECK - round * n - i,
                    forall|x: int| 0 <= x < n ==> (#[trigger] players@[x] matches Some(p) && {
                        &&& p@.wf()
                        &&& p@.game_id == game_id
                        &&& p@.player_num == x
                        &&& p@.team_num == x % (settings.team_size as int)
                        &&& p@.hand.len() == round + if x < i { 1int } else { 0int }
                    }),
                decreases n - i,
            {
                let ghost d_before = deck@;
                let ghost s_before = players@;
                let c = deck.pop().unwrap();
                let seat = players[i].take();
                match seat {
                    Some(mut p) => {
                        let ghost q = p;
                        p.push_card(c);
                        players.set(i, Some(p));
                        proof {
                            assert(players@ =~= s_before.update(i as int, Some(p)));
                            lemma_seat_hands_update(s_before, i as int, Some(p));
                            assert(s_before[i as int] == Some(q));
                            assert(seat_hand(Some(p)) =~= seat_hand(Some(q)).insert(c));
                            assert(d_before =~= deck@.push(c));
                            assert forall|x: Card| #[trigger] deck@.to_multiset().add(seat_hands(players@)).count(x) == fresh.count(x) by {
                                assert(seat_hands(players@).add(seat_hand(Some(q))).count(x) == seat_hands(s_before).add(seat_hand(Some(p))).count(x));
                                assert(d_before.to_multiset().add(seat_hands(s_before)).count(x) == fresh.count(x));
                            }
                            assert(deck@.to_multiset().add(seat_hands(players@)) =~= fresh);
                        }
                    },
                    None => {
                        players.set(i, None);
                    },
                }
                i = i + 1;
            }
            round = round + 1;
        }
        proof {
            assert(settings.deal_size * n == n * settings.deal_size) by (nonlinear_arith);
        }
        Admin {
            game_id,
            running: false,
            paused: false,
            points_to_win: settings.points_to_win,
            canastas_out: settings.canastas_out,
            team_size: settings.team_size,
            players,
            deck,
            discard: Vec::new(),
        }
    }

    pub fn get_game_id(&self) -> (r: u32)
        ensures
            r == self.id(),
    {
        self.game_id
    }

    pub fn is_running_now(&self) -> (r: bool)
        ensures
            r == self.is_running(),
    {
        self.running
    }

    pub fn is_paused_now(&self) -> (r: bool)
        ensures
            r == self.is_paused(),
    {
        self.paused
    }

    /// Lends out the player of seat `player_num`, leaving the seat empty.
    pub fn take_player(&mut self, player_num: u8) -> (r: Result<Player, PlayerError>)
        requires
            old(self).wf(),
        ensures
            final(self).wf(),
            r is Ok <==> player_num < old(self).seats().len() && old(self).seats()[player_num as int] is Some,
            player_num >= old(self).seats().len() ==> (r matches Err(e) && e.error_type == PlayerErrorType::InvalidPlayerNumber),
            player_num < old(self).seats().len() && old(self).seats()[player_num as int] is None
                ==> (r matches Err(e) && e.error_type == PlayerErrorType::PlayerAlreadyTaken),
            r is Err ==> *final(self) == *old(self),
            r matches Ok(p) ==> old(self).seats()[player_num as int] == Some(p)
                && final(self).seats() == old(self).seats().update(player_num as int, None)
                && final(self).id() == old(self).id()
                && final(self).is_running() == old(self).is_running()
                && final(self).is_paused() == old(self).is_paused(),
    {
        if player_num as usize >= self.players.len() {
            return Err(PlayerError::new(PlayerErrorType::InvalidPlayerNumber, "Player number out of range"));
        }
        if self.players[player_num as usize].is_none() {
            return Err(PlayerError::new(PlayerErrorType::PlayerAlreadyTaken, "Player already taken"));
        }
        let p = self.players[player_num as usize].take();
        match p {
            Some(p) => {
                proof {
                    assert forall|i: int| 0 <= i < self.seats().len() implies (#[trigger] self.seats()[i] matches Some(q)
                        ==> q@.game_id == self.id() && q@.player_num == i) by {
                        if i != player_num {
                            assert(self.seats()[i] == old(self).seats()[i]);
                        }
                    }
                }
                Ok(p)
            },
            None => Err(PlayerError::new(PlayerErrorType::PlayerAlreadyTaken, "Player already taken")),
        }
    }

    /// Seats a player lent out earlier. A player of another game, or whose
    /// seat is taken, is handed back in the error.
    pub fn insert_player(&mut self, player: Player) -> (r: Result<(), PlayerError>)
        requires
            old(self).wf(),
        ensures
            final(self).wf(),
            r is Ok <==> player@.game_id == old(self).id() && player@.player_num < old(self).seats().len()
                && old(self).seats()[player@.player_num as int] is None,
            r is Err ==> *final(self) == *old(self),
            player@.game_id != old(self).id() || player@.player_num >= old(self).seats().len()
                ==> (r matches Err(e) && e.error_type matches PlayerErrorType::PlayerFromWrongGame(q) && q == player),
            player@.game_id == old(self).id() && player@.player_num < old(self).seats().len()
                && old(self).seats()[player@.player_num as int] is Some
                ==> (r matches Err(e) && e.error_type matches PlayerErrorType::PlayerAlreadyInserted(q) && q == player),
            r is Ok ==> final(self).seats() == old(self).seats().update(player@.player_num as int, Some(player))
                && final(self).id() == old(self).id()
                && final(self).is_running() == old(self).is_running()
                && final(self).is_paused() == old(self).is_paused(),
    {
        if player.get_game_id() != self.game_id {
            return Err(PlayerError::new(PlayerErrorType::PlayerFromWrongGame(player), "Player from wrong game"));
        }
        let num = player.get_info().0 as usize;
        if num >= self.players.len() {
            return Err(PlayerError::new(PlayerErrorType::PlayerFromWrongGame(player), "Player from wrong game"));
        }
        if self.players[num].is_some() {
            return Err(PlayerError::new(PlayerErrorType::PlayerAlreadyInserted(player), "Player already exists"));
        }
        self.players.set(num, Some(player));
        proof {
            assert forall|i: int| 0 <= i < self.seats().len() implies (#[trigger] self.seats()[i] matches Some(q)
                ==> q@.game_id == self.id() && q@.player_num == i) by {
                if i != num {
                    assert(self.seats()[i] == old(self).seats()[i]);
                }
            }
        }
        Ok(())
    }

    /// Starts the game: turns up the top card of the deck, and goes on
    /// turning while it is wild or a Three and the deck lasts.
    pub fn start(&mut self) -> (r: Result<(), AdminError>)
        requires
            old(self).wf(),
        ensures
            final(self).wf(),
            old(self).is_running() ==> (r matches Err(e) && e.error_type == AdminErrorType::GameAlreadyRunning)
                && *final(self) == *old(self),
            !old(self).is_running() ==> r is Ok,
            r is Ok ==> {
                &&& final(self).is_running()
                &&& final(self).seats() == old(self).seats()
                &&& final(self).id() == old(self).id()
                &&& final(self).deck_view() == old(self).deck_view().subrange(0, final(self).deck_view().len() as int)
                &&& final(self).discard_view().subrange(0, old(self).discard_view().len() as int) == old(self).discard_view()
                &&& final(self).deck_view().len() + final(self).discard_view().len()
                    == old(self).deck_view().len() + old(self).discard_view().len()
                &&& old(self).deck_view().len() > 0 ==> {
                    &&& final(self).discard_view().len() > old(self).discard_view().len()
                    &&& (final(self).discard_view().last().normal() || final(self).deck_view().len() == 0)
                }
            },
    {
        if self.running {
            return Err(AdminError::new(AdminErrorType::GameAlreadyRunning, "Game already running"));
        }
        let ghost d0 = self.deck@;
        let ghost pile0 = self.discard@;
        if self.deck.len() > 0 {
            let c = self.deck.pop().unwrap();
            self.discard.push(c);
            proof {
                assert(self.deck@ =~= d0.subrange(0, self.deck@.len() as int));
                assert(self.discard@.subrange(0, pile0.len() as int) =~= pile0);
            }
            while self.deck.len() > 0 && !self.discard[self.discard.len() - 1].is_normal()
                invariant
                    self.deck@.len() <= d0.len(),
                    self.deck@ == d0.subrange(0, self.deck@.len() as int),
                    self.discard@.len() > pile0.len(),
                    self.discard@.subrange(0, pile0.len() as int) == pile0,
                    self.deck@.len() + self.discard@.len() == d0.len() + pile0.len(),
                    self.players == old(self).players,
                    self.game_id == old(self).game_id,
                    self.running == old(self).running,
                    old(self).wf(),
                decreases self.deck.len(),
            {
                let ghost before = self.discard@;
                let c = self.deck.pop().unwrap();
                self.discard.push(c);
                proof {
                    assert(self.deck@ =~= d0.subrange(0, self.deck@.len() as int));
                    assert(self.discard@.subrange(0, pile0.len() as int) =~= pile0) by {
                        assert(before.subrange(0, pile0.len() as int) == pile0);
                    }
                }
            }
        } else {
            assert(self.deck@ =~= d0.subrange(0, 0));
            assert(self.discard@.subrange(0, pile0.len() as int) =~= pile0);
        }
        self.running = true;
        Ok(())
    }

    /// The message that tells each player the game has started, with a copy
    /// of the discard pile.
    pub fn game_started(&self) -> (m: PlayerMessage)
        ensures
            m.msg_type matches Some(PlayerMessageType::GameStarted(pile)) && pile@ == self.discard_view(),
    {
        PlayerMessage::new(PlayerMessageType::GameStarted(copy_cards(&self.discard)), "The game has started")
    }

    /// Carries out one command of the administrator and gives the reply.
    pub fn handle_admin_request(&mut self, msg: AdminMessage) -> (reply: AdminReply)
        requires
            old(self).wf(),
        ensures
            final(self).wf(),
            match msg {
                AdminMessage::TakePlayer(n) => reply matches AdminReply::TakePlayer(r) && {
                    &&& (r is Ok <==> n < old(self).seats().len() && old(self).seats()[n as int] is Some)
                    &&& (r is Err ==> *final(self) == *old(self))
                    &&& (r matches Ok(p) ==> old(self).seats()[n as int] == Some(p)
                        && final(self).seats() == old(self).seats().update(n as int, None))
                },
                AdminMessage::InsertPlayer(p) => reply matches AdminReply::InsertPlayer(r) && {
                    &&& (r is Ok <==> p@.game_id == old(self).id() && p@.player_num < old(self).seats().len()
                        && old(self).seats()[p@.player_num as int] is None)
                    &&& (p@.game_id != old(self).id() || p@.player_num >= old(self).seats().len()
                        ==> (r matches Err(e) && e.error_type matches PlayerErrorType::PlayerFromWrongGame(q) && q == p))
                    &&& (p@.game_id == old(self).id() && p@.player_num < old(self).seats().len()
                        && old(self).seats()[p@.player_num as int] is Some
                        ==> (r matches Err(e) && e.error_type matches PlayerErrorType::PlayerAlreadyInserted(q) && q == p))
                    &&& (r is Err ==> *final(self) == *old(self))
                    &&& (r is Ok ==> final(self).seats() == old(self).seats().update(p@.player_num as int, Some(p)))
                },
                AdminMessage::PauseGame => reply == AdminReply::PauseGame(Ok(()))
                    && final(self).is_paused() && final(self).is_running() == old(self).is_running()
                    && final(self).seats() == old(self).seats(),
                AdminMessage::ResumeGame => reply == AdminReply::ResumeGame(Ok(()))
                    && !final(self).is_paused() && final(self).is_running() == old(self).is_running()
                    && final(self).seats() == old(self).seats(),
                AdminMessage::EndGame => reply == AdminReply::EndGame(Ok(()))
                    && !final(self).is_running() && final(self).seats() == old(self).seats(),
            },
    {
        match msg {
            AdminMessage::TakePlayer(n) => AdminReply::TakePlayer(self.take_player(n)),
            AdminMessage::InsertPlayer(p) => AdminReply::InsertPlayer(self.insert_player(p)),
            AdminMessage::PauseGame => {
                self.paused = true;
                AdminReply::PauseGame(Ok(()))
            },
            AdminMessage::ResumeGame => {
                self.paused = false;
                AdminReply::ResumeGame(Ok(()))
            },
            AdminMessage::EndGame => {
                self.running = false;
                AdminReply::EndGame(Ok(()))
            },
        }
    }
}

} // verus!
