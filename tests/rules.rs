use casey::card::{Card, Rank, Suit};
use casey::deck::{make_deck, standard_deck};
use casey::errors::{MeldErrorType, PackClaimReason, RuleErrorType, SettingsErrorType};
use casey::game::Game;
use casey::meld::Meld;
use casey::player::TurnPhase;

/// Moves the card with id `id` to position `pos`, swapping.
fn place(deck: &mut Vec<Card>, pos: usize, id: usize) {
    let at = deck.iter().position(|c| c.id == id).unwrap();
    deck.swap(pos, at);
}

/// Two packs and four Jokers in order, with no red three dealt to player 0.
fn ordered_deck() -> Vec<Card> {
    let mut deck = standard_deck(2, 4);
    place(&mut deck, 67, 0);
    deck
}

fn dealt_game(deck: Vec<Card>) -> Game {
    let mut g = Game::from_deck(4, deck).unwrap();
    g.deal(11).unwrap();
    g
}

fn all_ids(g: &Game) -> Vec<usize> {
    let mut ids: Vec<usize> = g.get_deck().iter().map(|c| c.id).collect();
    ids.extend(g.get_discard().iter().map(|c| c.id));
    for i in 0..g.num_players() {
        let p = g.get_player(i);
        ids.extend(p.get_hand().iter().map(|c| c.id));
        ids.extend(p.get_red_threes().iter().map(|c| c.id));
        for m in p.get_melds().iter().flatten() {
            ids.extend(m.get_cards().iter().map(|c| c.id));
        }
        if let Some(t) = p.get_temp() {
            ids.extend(t.iter().map(|c| c.id));
        }
    }
    ids.sort();
    ids
}

fn full_pack() -> Vec<usize> {
    (0..108).collect()
}

fn first_card(g: &Game, player: usize) -> usize {
    g.hand_of(player).unwrap()[0].id
}

#[test]
fn card_values_and_kinds() {
    assert_eq!(Card::new(0, Rank::Ace, Suit::Clubs).get_value(), 20);
    assert_eq!(Card::new(0, Rank::Two, Suit::Clubs).get_value(), 20);
    assert_eq!(Card::new(0, Rank::Three, Suit::Hearts).get_value(), 100);
    assert_eq!(Card::new(0, Rank::Three, Suit::Diamonds).get_value(), 100);
    assert_eq!(Card::new(0, Rank::Three, Suit::Spades).get_value(), 5);
    assert_eq!(Card::new(0, Rank::Seven, Suit::Spades).get_value(), 5);
    assert_eq!(Card::new(0, Rank::Eight, Suit::Spades).get_value(), 10);
    assert_eq!(Card::new(0, Rank::King, Suit::Spades).get_value(), 10);
    assert_eq!(Card::new(0, Rank::Joker, Suit::Spades).get_value(), 50);
    let black_three = Card::new(1, Rank::Three, Suit::Clubs);
    assert!(black_three.is_three() && !black_three.is_wild() && !black_three.is_normal() && !black_three.is_red_three());
    assert!(Card::new(2, Rank::Two, Suit::Clubs).is_wild());
    assert!(Card::new(3, Rank::Ace, Suit::Clubs).is_normal());
    assert_eq!(Card::new(4, Rank::Queen, Suit::Hearts).get_suit(), Suit::Hearts);
    assert_eq!(Card::new(4, Rank::Queen, Suit::Hearts).get_rank(), Rank::Queen);
}

#[test]
fn standard_deck_layout() {
    let d = standard_deck(2, 4);
    assert_eq!(d.len(), 108);
    for (i, c) in d.iter().enumerate() {
        assert_eq!(c.id, i);
    }
    assert_eq!(d[28], Card::new(28, Rank::Three, Suit::Spades));
    assert_eq!(d[67], Card::new(67, Rank::Three, Suit::Diamonds));
    assert_eq!(d.iter().filter(|c| c.rank == Rank::Joker).count(), 4);
}

#[test]
fn shuffled_deck_keeps_the_cards() {
    let d = make_deck(2, 4);
    let mut ids: Vec<usize> = d.iter().map(|c| c.id).collect();
    assert_ne!(ids, full_pack());
    ids.sort();
    assert_eq!(ids, full_pack());
}

#[test]
fn new_game_refusals() {
    assert_eq!(Game::new(1, 2, 4).unwrap_err().error_type, SettingsErrorType::InvalidNumberOfPlayers);
    assert_eq!(Game::new(4, 0, 4).unwrap_err().error_type, SettingsErrorType::InvalidPackCount);
    let mut deck = standard_deck(1, 0);
    deck[1] = deck[0];
    assert_eq!(Game::from_deck(2, deck).unwrap_err().error_type, SettingsErrorType::DuplicateCard);
    let g = Game::new(4, 2, 4).unwrap();
    assert_eq!(all_ids(&g), full_pack());
}

#[test]
fn deal_refusals_and_layout() {
    let mut g = Game::from_deck(4, ordered_deck()).unwrap();
    assert_eq!(g.deal(27).unwrap_err().error_type, RuleErrorType::InvalidDeal);
    g.deal(11).unwrap();
    assert_eq!(g.deal(1).unwrap_err().error_type, RuleErrorType::InvalidDeal);
    for i in 0..4 {
        assert_eq!(g.hand_of(i).unwrap().len(), 11);
    }
    assert_eq!(g.get_discard().len(), 1);
    assert_eq!(g.get_discard()[0].id, 63);
    assert_eq!(g.get_deck().len(), 63);
    assert_eq!(g.get_player(0).get_phase(), TurnPhase::Draw);
    assert_eq!(all_ids(&g), full_pack());
}

#[test]
fn black_then_red_three() {
    let mut deck = ordered_deck();
    place(&mut deck, 62, 28);
    place(&mut deck, 58, 2);
    let mut g = dealt_game(deck);
    assert_eq!(g.get_deck().len(), 108 - 44 - 1);
    let c = g.draw(0).unwrap();
    assert_eq!(c, Card::new(28, Rank::Three, Suit::Spades));
    assert!(!c.is_normal() && !c.is_wild());
    assert!(g.hand_of(0).unwrap().contains(&c));
    let before: Vec<Card> = g.hand_of(0).unwrap().clone();
    let e = g.meld(0, vec![28], Suit::Spades).unwrap_err();
    assert_eq!(e.error_type, RuleErrorType::InvalidMeld);
    assert_eq!(g.hand_of(0).unwrap(), &before);
    let t = first_card(&g, 0);
    g.discard(0, t).unwrap();
    for p in 1..4 {
        g.draw(p).unwrap();
        let t = first_card(&g, p);
        g.discard(p, t).unwrap();
    }
    let c = g.draw(0).unwrap();
    assert_eq!(c.id, 57);
    let reds = g.get_player(0).get_red_threes();
    assert_eq!(reds.len(), 1);
    assert_eq!(reds[0], Card::new(2, Rank::Three, Suit::Hearts));
    assert!(!g.hand_of(0).unwrap().iter().any(|c| c.id == 2));
    assert!(g.hand_of(0).unwrap().iter().any(|c| c.id == 28));
    assert_eq!(all_ids(&g), full_pack());
}

#[test]
fn wild_top_blocks_the_pack() {
    let mut g = dealt_game(ordered_deck());
    g.draw(0).unwrap();
    g.discard(0, 107).unwrap();
    assert!(g.is_frozen());
    let pile: Vec<Card> = g.get_discard().clone();
    let hand: Vec<Card> = g.hand_of(1).unwrap().clone();
    let e = g.take_pack(1, vec![102]).unwrap_err();
    assert_eq!(e.error_type, RuleErrorType::PackClaim(PackClaimReason::TopCardUnclaimable));
    assert_eq!(g.get_discard(), &pile);
    assert_eq!(g.hand_of(1).unwrap(), &hand);
    let e = g.take_pack(1, vec![102, 98]).unwrap_err();
    assert_eq!(e.error_type, RuleErrorType::PackClaim(PackClaimReason::TopCardUnclaimable));
    assert_eq!(g.get_discard(), &pile);
    assert_eq!(g.hand_of(1).unwrap(), &hand);
}

#[test]
fn frozen_pile_needs_two_naturals() {
    let mut g = dealt_game(ordered_deck());
    g.draw(0).unwrap();
    g.discard(0, 107).unwrap();
    g.draw(1).unwrap();
    g.discard(1, 102).unwrap();
    assert!(g.is_frozen());
    let hand: Vec<Card> = g.hand_of(2).unwrap().clone();
    let e = g.take_pack(2, vec![101]).unwrap_err();
    assert_eq!(e.error_type, RuleErrorType::PackClaim(PackClaimReason::FrozenMinimum));
    assert_eq!(g.hand_of(2).unwrap(), &hand);
    assert!(g.is_frozen());
    g.take_pack(2, vec![101, 97]).unwrap();
    assert!(!g.is_frozen());
    assert!(g.get_discard().is_empty());
    let clubs = g.get_player(2).get_melds()[3].as_ref().unwrap();
    let mut ids: Vec<usize> = clubs.get_cards().iter().map(|c| c.id).collect();
    ids.sort();
    assert_eq!(ids, vec![97, 101, 102]);
    assert_eq!(g.hand_of(2).unwrap().len(), 11);
    assert!(g.hand_of(2).unwrap().iter().any(|c| c.id == 107));
    assert!(g.hand_of(2).unwrap().iter().any(|c| c.id == 63));
    assert_eq!(g.get_player(2).get_phase(), TurnPhase::Throw);
    assert_eq!(all_ids(&g), full_pack());
}

#[test]
fn mixed_canasta_bonus() {
    let mut m = Meld::new(Card::new(0, Rank::Ace, Suit::Hearts)).unwrap();
    for (id, rank) in [(3, Rank::Four), (4, Rank::Five), (5, Rank::Six), (6, Rank::Seven)] {
        m.add(Card::new(id, rank, Suit::Hearts)).unwrap();
    }
    assert_eq!(m.get_value(), 40);
    assert!(m.is_natural());
    m.add(Card::new(1, Rank::Two, Suit::Hearts)).unwrap();
    m.add(Card::new(104, Rank::Joker, Suit::Hearts)).unwrap();
    assert_eq!(m.get_cards().len(), 7);
    assert!(!m.is_natural());
    assert_eq!(m.get_value(), 110 + 300);
}

#[test]
fn natural_canasta_bonus() {
    let mut m = Meld::new(Card::new(0, Rank::Ace, Suit::Hearts)).unwrap();
    for (id, rank) in [(3, Rank::Four), (4, Rank::Five), (5, Rank::Six), (6, Rank::Seven), (7, Rank::Eight), (8, Rank::Nine)] {
        m.add(Card::new(id, rank, Suit::Hearts)).unwrap();
    }
    assert!(m.is_natural());
    assert_eq!(m.get_value(), 60 + 500);
}

#[test]
fn meld_refusals() {
    let e = Meld::new(Card::new(1, Rank::Two, Suit::Hearts)).unwrap_err();
    assert_eq!(e.error_type, MeldErrorType::InvalidCard(Card::new(1, Rank::Two, Suit::Hearts)));
    assert!(Meld::new(Card::new(2, Rank::Three, Suit::Hearts)).is_err());
    let mut m = Meld::new(Card::new(0, Rank::Ace, Suit::Hearts)).unwrap();
    let joker = Card::new(104, Rank::Joker, Suit::Hearts);
    let two = Card::new(1, Rank::Two, Suit::Clubs);
    m.add(joker).unwrap();
    let e = m.add(two).unwrap_err();
    assert_eq!(e.error_type, MeldErrorType::TooManyWilds(two));
    assert_eq!(e.get_card(), Some(two));
    let spade = Card::new(30, Rank::Five, Suit::Spades);
    assert_eq!(m.add(spade).unwrap_err().error_type, MeldErrorType::InvalidCard(spade));
    assert_eq!(m.remove(5).unwrap_err().error_type, MeldErrorType::InvalidIndex);
    assert_eq!(m.remove(0).unwrap_err().error_type, MeldErrorType::InvalidIndex);
    m.add(Card::new(3, Rank::Four, Suit::Hearts)).unwrap();
    assert_eq!(m.get_cards().len(), 3);
    assert_eq!(m.remove(1).unwrap(), joker);
    let back = m.add_cards(vec![Card::new(5, Rank::Six, Suit::Hearts), spade]).unwrap_err();
    assert_eq!(back.len(), 2);
    assert_eq!(m.get_cards().len(), 2);
    m.add_cards(vec![Card::new(5, Rank::Six, Suit::Hearts), joker]).unwrap();
    assert_eq!(m.get_cards().len(), 4);
    let other = Meld::new(Card::new(31, Rank::Six, Suit::Spades)).unwrap();
    let other = m.combine(other).unwrap_err();
    let same = Meld::new(Card::new(60, Rank::Nine, Suit::Hearts)).unwrap();
    m.combine(same).unwrap();
    assert_eq!(m.get_cards().len(), 5);
    assert_eq!(other.clear().len(), 1);
    let three = vec![Card::new(0, Rank::Ace, Suit::Hearts), Card::new(3, Rank::Four, Suit::Hearts)];
    assert!(Meld::is_valid(&three, Some(joker)));
    assert!(!Meld::is_valid(&three, None));
    assert!(Meld::can_take_pack(&three, &Card::new(4, Rank::Five, Suit::Hearts)));
    assert!(!Meld::can_take_pack(&three, &joker));
}

#[test]
fn phase_gating() {
    let mut g = dealt_game(ordered_deck());
    let t = first_card(&g, 0);
    assert_eq!(g.discard(0, t).unwrap_err().error_type, RuleErrorType::WrongPhase);
    assert_eq!(g.meld(0, vec![t], Suit::Hearts).unwrap_err().error_type, RuleErrorType::WrongPhase);
    assert_eq!(g.draw(1).unwrap_err().error_type, RuleErrorType::NotYourTurn);
    assert_eq!(g.draw(9).unwrap_err().error_type, RuleErrorType::InvalidPlayer);
    g.draw(0).unwrap();
    let ids = all_ids(&g);
    assert_eq!(g.draw(0).unwrap_err().error_type, RuleErrorType::WrongPhase);
    assert_eq!(g.take_pack(0, vec![]).unwrap_err().error_type, RuleErrorType::WrongPhase);
    assert_eq!(g.meld_threes(0).unwrap_err().error_type, RuleErrorType::WrongPhase);
    assert_eq!(all_ids(&g), ids);
    assert_eq!(g.discard(0, 5000).unwrap_err().error_type, RuleErrorType::CardNotFound);
    assert_eq!(g.current_player(), 0);
}

#[test]
fn rejected_meld_keeps_the_hand() {
    let mut g = dealt_game(ordered_deck());
    g.draw(0).unwrap();
    let hand: Vec<Card> = g.hand_of(0).unwrap().clone();
    assert_eq!(g.meld(0, vec![107, 79], Suit::Clubs).unwrap_err().error_type, RuleErrorType::InvalidMeld);
    assert_eq!(g.meld(0, vec![103, 5000], Suit::Clubs).unwrap_err().error_type, RuleErrorType::CardNotFound);
    assert_eq!(g.meld(0, vec![103, 103], Suit::Clubs).unwrap_err().error_type, RuleErrorType::CardNotFound);
    assert_eq!(g.hand_of(0).unwrap(), &hand);
    g.meld(0, vec![103, 99, 107], Suit::Clubs).unwrap();
    assert_eq!(g.hand_of(0).unwrap().len(), hand.len() - 3);
    assert_eq!(all_ids(&g), full_pack());
}

#[test]
fn freeze_stays_until_the_pack_is_taken() {
    let mut g = dealt_game(ordered_deck());
    assert!(!g.is_frozen());
    g.draw(0).unwrap();
    g.discard(0, 107).unwrap();
    assert!(g.is_frozen());
    for p in 1..4 {
        g.draw(p).unwrap();
        let t = g.hand_of(p).unwrap().iter().find(|c| c.is_normal()).unwrap().id;
        g.discard(p, t).unwrap();
        assert!(g.is_frozen());
    }
}

#[test]
fn pack_claim_refusals() {
    let mut g = dealt_game(ordered_deck());
    g.draw(0).unwrap();
    g.discard(0, 103).unwrap();
    assert_eq!(g.take_pack(1, vec![5000]).unwrap_err().error_type, RuleErrorType::PackClaim(PackClaimReason::CardNotFound));
    let mut g = dealt_game(ordered_deck());
    g.draw(0).unwrap();
    g.discard(0, 103).unwrap();
    g.draw(1).unwrap();
    g.discard(1, 102).unwrap();
    assert_eq!(g.take_pack(2, vec![93]).unwrap_err().error_type, RuleErrorType::PackClaim(PackClaimReason::ThreeOffered));
    assert_eq!(g.take_pack(2, vec![89]).unwrap_err().error_type, RuleErrorType::PackClaim(PackClaimReason::SuitMismatch));
    assert_eq!(all_ids(&g), full_pack());
    g.take_pack(2, vec![101]).unwrap();
    assert_eq!(all_ids(&g), full_pack());
}

#[test]
fn red_threes_first() {
    let mut g = dealt_game(standard_deck(2, 4));
    assert_eq!(g.draw(0).unwrap_err().error_type, RuleErrorType::RedThreesPending);
    assert_eq!(g.take_pack(0, vec![]).unwrap_err().error_type, RuleErrorType::RedThreesPending);
    let ids = g.meld_threes(0).unwrap();
    assert_eq!(ids, Vec::<usize>::new());
    assert!(g.hand_of(0).unwrap().iter().any(|c| c.id == 62));
    assert_eq!(g.get_player(0).get_red_threes().len(), 1);
    assert_eq!(g.hand_of(0).unwrap().len(), 11);
    assert_eq!(g.score(0), Some(100 - g.hand_of(0).unwrap().iter().map(|c| c.get_value() as i128).sum::<i128>()));
    g.draw(0).unwrap();
    assert_eq!(all_ids(&g), full_pack());
}

#[test]
fn deck_runs_out() {
    let d = standard_deck(1, 0);
    let small = vec![Card::new(200, Rank::Three, Suit::Hearts), d[0], d[7], d[3], d[4], d[5], d[6]];
    let mut g = Game::from_deck(2, small).unwrap();
    g.deal(2).unwrap();
    assert_eq!(g.get_deck().len(), 2);
    assert_eq!(g.get_discard()[0].id, 7);
    assert_eq!(g.draw(0).unwrap().id, 0);
    let t = first_card(&g, 0);
    g.discard(0, t).unwrap();
    assert_eq!(g.draw(1).unwrap_err().error_type, RuleErrorType::DeckExhausted);
    assert!(g.is_round_over());
    assert_eq!(g.get_player(1).get_red_threes().len(), 1);
    assert!(g.get_deck().is_empty());
    assert_eq!(g.draw(1).unwrap_err().error_type, RuleErrorType::RoundOver);
}

#[test]
fn raw_deck_and_pile_moves() {
    let mut g = Game::from_deck(2, standard_deck(1, 0)).unwrap();
    let c = g.pop_deck().unwrap();
    assert_eq!(c.id, 51);
    g.push_deck(c);
    assert_eq!(g.get_deck().len(), 52);
    let c = g.pop_deck().unwrap();
    g.push_discard(c);
    assert_eq!(g.get_discard().len(), 1);
    assert_eq!(g.current_player(), 1);
    assert_eq!(g.get_player(1).get_phase(), TurnPhase::Draw);
}

#[test]
fn red_three_drawn_while_replacing() {
    let mut deck = standard_deck(2, 4);
    place(&mut deck, 62, 2);
    let mut g = dealt_game(deck);
    let ids = g.meld_threes(0).unwrap();
    assert_eq!(ids, vec![2]);
    let reds: Vec<usize> = g.get_player(0).get_red_threes().iter().map(|c| c.id).collect();
    assert_eq!(reds, vec![67, 2]);
    assert!(g.hand_of(0).unwrap().iter().any(|c| c.id == 61));
    assert_eq!(g.hand_of(0).unwrap().len(), 11);
    assert_eq!(g.get_deck().len(), 61);
    assert_eq!(all_ids(&g), full_pack());
}

#[test]
fn replacement_runs_out() {
    let d = standard_deck(1, 0);
    let small = vec![Card::new(201, Rank::Three, Suit::Diamonds), d[7], d[3], d[2], d[4], d[5]];
    let mut g = Game::from_deck(2, small).unwrap();
    g.deal(2).unwrap();
    assert_eq!(g.get_deck().len(), 1);
    let e = g.meld_threes(0).unwrap_err();
    assert_eq!(e.error_type, RuleErrorType::DeckExhausted);
    assert!(g.is_round_over());
    let reds: Vec<usize> = g.get_player(0).get_red_threes().iter().map(|c| c.id).collect();
    assert_eq!(reds, vec![2, 201]);
    assert!(g.get_deck().is_empty());
}
