use casey::card::{Card, Rank, Suit};
use casey::errors::{AdminErrorType, PlayerErrorType, SettingsErrorType, TempMeldType, TurnErrorType};
use casey::messages::PlayerMessageType;
use casey::session::{AdminMessage, AdminReply};
use casey::player::Player;
use casey::setup::GameSettings;

//tests that create game settings then confirm them to create a game admin
#[test]
fn game_admin() {
    let settings = GameSettings::new(4, 2, 1, 11);
    let _admin = settings.confirm_settings().unwrap();
}

#[test]
fn game_admin_invalid_team_size() {
    let settings = GameSettings::new(4, 0, 1, 11);
    let admin = settings.confirm_settings();
    assert!(admin.is_err());
}

#[test]
fn player_num_team_num() {
    //test that creates a game admin with 4 players and 2 teams and checks each player has the right number
    let settings = GameSettings::new(4, 2, 1, 11);
    let mut admin = settings.confirm_settings().unwrap();
    let mut players: Vec<Player> = vec![];
    for i in 0..4 {
        players.push(admin.take_player(i).unwrap());
    }
    for i in 0..4 {
        assert_eq!(players[i].get_info().0, i as u8);
        //check team number, should alternate between 0 and 1
        assert_eq!(players[i].get_info().1, i as u8 % 2);
    }
}

#[test]
fn settings_refusals() {
    let e = GameSettings::new(1, 1, 1, 11).confirm_settings().unwrap_err();
    assert_eq!(e.error_type, SettingsErrorType::InvalidNumberOfPlayers);
    let e = GameSettings::new(4, 3, 1, 11).confirm_settings().unwrap_err();
    assert_eq!(e.error_type, SettingsErrorType::InvalidPlayerRatio);
    let e = GameSettings::new(4, 2, 12, 11).confirm_settings().unwrap_err();
    assert_eq!(e.error_type, SettingsErrorType::InvalidCanastaOut);
    let e = GameSettings::new(4, 2, 11, 27).confirm_settings().unwrap_err();
    assert_eq!(e.error_type, SettingsErrorType::InvalidDealSize);
    assert!(GameSettings::new(4, 2, 11, 26).confirm_settings().is_ok());
}

#[test]
fn seats_lend_and_take_back() {
    let mut admin = GameSettings::new(4, 2, 1, 11).confirm_settings().unwrap();
    let p = admin.take_player(2).unwrap();
    assert_eq!(p.get_hand().len(), 11);
    let e = admin.take_player(2).unwrap_err();
    assert!(matches!(e.error_type, PlayerErrorType::PlayerAlreadyTaken));
    let e = admin.take_player(9).unwrap_err();
    assert!(matches!(e.error_type, PlayerErrorType::InvalidPlayerNumber));
    admin.insert_player(p).unwrap();
    let q = Player::new(admin.get_game_id().wrapping_add(1), 1, 1);
    let e = admin.insert_player(q).unwrap_err();
    assert!(matches!(e.error_type, PlayerErrorType::PlayerFromWrongGame(_)));
    let twin = admin.take_player(1).unwrap();
    let other = Player::new(admin.get_game_id(), 0, 0);
    let e = admin.insert_player(other).unwrap_err();
    assert!(matches!(e.error_type, PlayerErrorType::PlayerAlreadyInserted(_)));
    admin.insert_player(twin).unwrap();
}

#[test]
fn admin_start_and_commands() {
    let mut admin = GameSettings::new(4, 2, 1, 11).confirm_settings().unwrap();
    admin.start().unwrap();
    assert!(admin.is_running_now());
    let e = admin.start().unwrap_err();
    assert_eq!(e.error_type, AdminErrorType::GameAlreadyRunning);
    let mut m = admin.game_started();
    match m.get_type() {
        Some(PlayerMessageType::GameStarted(pile)) => {
            assert!(!pile.is_empty());
            assert!(pile[pile.len() - 1].is_normal());
        }
        _ => panic!("expected the start message"),
    }
    assert!(m.get_type().is_none());
    assert_eq!(m.read(), "The game has started");
    assert!(matches!(admin.handle_admin_request(AdminMessage::PauseGame), AdminReply::PauseGame(Ok(()))));
    assert!(admin.is_paused_now());
    assert!(matches!(admin.handle_admin_request(AdminMessage::ResumeGame), AdminReply::ResumeGame(Ok(()))));
    assert!(!admin.is_paused_now());
    match admin.handle_admin_request(AdminMessage::TakePlayer(3)) {
        AdminReply::TakePlayer(Ok(p)) => assert_eq!(p.get_info(), (3, 1)),
        _ => panic!("expected a player"),
    }
    assert!(matches!(admin.handle_admin_request(AdminMessage::EndGame), AdminReply::EndGame(Ok(()))));
    assert!(!admin.is_running_now());
}

#[test]
fn temporary_meld_and_turn_errors() {
    let mut admin = GameSettings::new(2, 1, 1, 11).confirm_settings().unwrap();
    let mut p = admin.take_player(0).unwrap();
    assert!(!p.my_turn());
    let id = p.get_hand().iter().find(|c| c.is_normal()).unwrap().id;
    p.push_temp(id).unwrap();
    assert_eq!(p.get_hand().len(), 10);
    assert_eq!(p.get_temp().unwrap().len(), 1);
    assert_eq!(p.push_temp(5000).unwrap_err().error_type, TempMeldType::InvalidCardNumber);
    assert_eq!(p.commit_temp().unwrap_err().error_type, TempMeldType::NotMeldPhase);
    p.clear_temp();
    assert!(p.get_temp().is_none());
    assert_eq!(p.get_hand().len(), 11);
    let card = Card::new(500, Rank::Ace, Suit::Hearts);
    let e = p.draw_deck(card).unwrap_err();
    assert_eq!(e.error_type, TurnErrorType::NotDrawPhase(card));
    assert_eq!(p.throw(id).unwrap_err().error_type, TurnErrorType::NotThrowPhase);
    assert_eq!(p.remove_card(id).unwrap().id, id);
    assert_eq!(p.get_hand().len(), 10);
}
