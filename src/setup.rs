//! Settings of a hosted game, checked before a game is created.
use vstd::prelude::*;
use crate::errors::{SettingsError, SettingsErrorType};
use crate::session::{Admin, SESSION_DECK};

verus! {

/// Largest number of canastas that may be required to go out.
pub const MAX_CANASTAS_OUT: u8 = 11;

#[derive(Debug)]
pub struct GameSettings {
    pub num_players: u8,
    pub team_size: u8,
    pub canastas_out: u8,
    pub deal_size: u8,
    pub points_to_win: u16,
}

impl GameSettings {
    /// The first refusal these settings meet, if any.
    pub open spec fn refusal(&self) -> Option<SettingsErrorType> {
        if self.team_size == 0 {
            Some(SettingsErrorType::InvalidTeamSize)
        } else if self.num_players < 2 {
            Some(SettingsErrorType::InvalidNumberOfPlayers)
        } else if self.num_players % self.team_size != 0 {
            Some(SettingsErrorType::InvalidPlayerRatio)
        } else if self.canastas_out > MAX_CANASTAS_OUT {
            Some(SettingsErrorType::InvalidCanastaOut)
        } else if self.num_players * self.deal_size >= SESSION_DECK {
            Some(SettingsErrorType::InvalidDealSize)
        } else {
            None
        }
    }

    pub fn new(num_players: u8, team_size: u8, canastas_out: u8, deal_size: u8) -> (s: GameSettings)
        ensures
            s == (GameSettings { num_players, team_size, canastas_out, deal_size, points_to_win: 0 }),
    {
        GameSettings { num_players, team_size, canastas_out, deal_size, points_to_win: 0 }
    }

    pub fn set_players(&mut self, num_players: u8)
        ensures
            *final(self) == (GameSettings { num_players, ..*old(self) }),
    {
        self.num_players = num_players;
    }

    pub fn set_team_size(&mut self, team_size: u8)
        ensures
            *final(self) == (GameSettings { team_size, ..*old(self) }),
    {
        self.team_size = team_size;
    }

    pub fn set_canastas_out(&mut self, canastas_out: u8)
        ensures
            *final(self) == (GameSettings { canastas_out, ..*old(self) }),
    {
        self.canastas_out = canastas_out;
    }

    pub fn set_points_to_win(&mut self, points_to_win: u16)
        ensures
            *final(self) == (GameSettings { points_to_win, ..*old(self) }),
    {
        self.points_to_win = points_to_win;
    }

    /// Checks the settings: a team size above zero, at least two players, a
    /// whole number of teams, no more than eleven canastas to go out, and
    /// cards left after the deal. On success, a game is set up and dealt.
    pub fn confirm_settings(&self) -> (r: Result<Admin, SettingsError>)
        ensures
            match self.refusal() {
                Some(k) => r matches Err(e) && e.error_type == k,
                None => r matches Ok(a) && a.wf() && a.settings_match(self),
            },
    {
        if self.team_size == 0 {
            return Err(SettingsError::new(SettingsErrorType::InvalidTeamSize, "Team size cannot be 0"));
        }
        if self.num_players < 2 {
            return Err(SettingsError::new(SettingsErrorType::InvalidNumberOfPlayers, "Number of players must be greater than 1"));
        }
        if self.num_players % self.team_size != 0 {
            return Err(SettingsError::new(SettingsErrorType::InvalidPlayerRatio, "Number of players must be divisible by team size"));
        }
        if self.canastas_out > MAX_CANASTAS_OUT {
            return Err(SettingsError::new(SettingsErrorType::InvalidCanastaOut, "Number of canastas to go out must be less than 12"));
        }
        assert(self.num_players as usize * self.deal_size as usize <= 255 * 255) by (nonlinear_arith)
            requires self.num_players <= 255, self.deal_size <= 255;
        if self.num_players as usize * self.deal_size as usize >= SESSION_DECK {
            return Err(SettingsError::new(SettingsErrorType::InvalidDealSize, "Not enough cards to deal that many"));
        }
        Ok(Admin::new(self))
    }
}

} // verus!
