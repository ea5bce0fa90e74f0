//! Error values. Each carries a kind, a human-readable message and, where a
//! card was refused, that card, so that no card is ever lost on a failure path.
use vstd::prelude::*;
use crate::card::Card;
use crate::player::Player;

verus! {

/// Why a single meld operation was refused.
#[derive(Clone, Copy, Debug, PartialEq, Eq, Structural)]
pub enum MeldErrorType {
    /// Two melds of different suits cannot be combined.
    InvalidRank,
    /// The card is a Three, or a normal card of another suit; it is handed back.
    InvalidCard(Card),
    /// The card is wild and would leave as many wilds as natural cards; it is handed back.
    TooManyWilds(Card),
    /// No card can be taken out at that position.
    InvalidIndex,
}

#[derive(Debug)]
pub struct MeldError {
    pub error_type: MeldErrorType,
    pub msg: String,
}

impl MeldError {
    pub fn invalid_rank(msg: &str) -> (e: MeldError)
        ensures
            e.error_type == MeldErrorType::InvalidRank,
            e.msg@ == msg@,
    {
        MeldError { error_type: MeldErrorType::InvalidRank, msg: msg.to_owned() }
    }

    pub fn invalid_card(msg: &str, card: Card) -> (e: MeldError)
        ensures
            e.error_type == MeldErrorType::InvalidCard(card),
            e.msg@ == msg@,
    {
        MeldError { error_type: MeldErrorType::InvalidCard(card), msg: msg.to_owned() }
    }

    pub fn too_many_wilds(msg: &str, card: Card) -> (e: MeldError)
        ensures
            e.error_type == MeldErrorType::TooManyWilds(card),
            e.msg@ == msg@,
    {
        MeldError { error_type: MeldErrorType::TooManyWilds(card), msg: msg.to_owned() }
    }

    pub fn invalid_index(msg: &str) -> (e: MeldError)
        ensures
            e.error_type == MeldErrorType::InvalidIndex,
            e.msg@ == msg@,
    {
        MeldError { error_type: MeldErrorType::InvalidIndex, msg: msg.to_owned() }
    }

    /// The refused card, for the errors that carry one.
    pub open spec fn card(self) -> Option<Card> {
        match self.error_type {
            MeldErrorType::InvalidCard(c) => Some(c),
            MeldErrorType::TooManyWilds(c) => Some(c),
            _ => None,
        }
    }

    pub fn get_card(&self) -> (r: Option<Card>)
        ensures
            r == self.card(),
    {
        match self.error_type {
            MeldErrorType::InvalidCard(c) => Some(c),
            MeldErrorType::TooManyWilds(c) => Some(c),
            _ => None,
        }
    }

    pub fn message(&self) -> (m: String)
        ensures
            m@ == self.msg@,
    {
        self.msg.clone()
    }
}

/// Why a player-level turn action was refused.
#[derive(Clone, Copy, Debug, PartialEq, Eq, Structural)]
pub enum TurnErrorType {
    NotThrowPhase,
    /// Not the drawing phase; the card offered is handed back.
    NotDrawPhase(Card),
    InvalidCard,
}

#[derive(Debug)]
pub struct TurnError {
    pub error_type: TurnErrorType,
    pub msg: String,
}

impl TurnError {
    pub fn invalid_card(msg: &str) -> (e: TurnError)
        ensures
            e.error_type == TurnErrorType::InvalidCard,
            e.msg@ == msg@,
    {
        TurnError { error_type: TurnErrorType::InvalidCard, msg: msg.to_owned() }
    }

    pub fn not_draw_phase(msg: &str, card: Card) -> (e: TurnError)
        ensures
            e.error_type == TurnErrorType::NotDrawPhase(card),
            e.msg@ == msg@,
    {
        TurnError { error_type: TurnErrorType::NotDrawPhase(card), msg: msg.to_owned() }
    }

    pub fn not_throw_phase(msg: &str) -> (e: TurnError)
        ensures
            e.error_type == TurnErrorType::NotThrowPhase,
            e.msg@ == msg@,
    {
        TurnError { error_type: TurnErrorType::NotThrowPhase, msg: msg.to_owned() }
    }
}

/// Why building or committing a temporary meld was refused.
#[derive(Clone, Copy, Debug, PartialEq, Eq, Structural)]
pub enum TempMeldType {
    PushWild,
    InvalidCardNumber,
    InvalidRank,
    InvalidMeld,
    NotMeldPhase,
}

#[derive(Debug)]
pub struct TempMeldError {
    pub error_type: TempMeldType,
    pub msg: String,
}

impl TempMeldError {
    pub fn wild(msg: &str) -> (e: TempMeldError)
        ensures
            e.error_type == TempMeldType::PushWild,
            e.msg@ == msg@,
    {
        TempMeldError { error_type: TempMeldType::PushWild, msg: msg.to_owned() }
    }

    pub fn card_number(msg: &str) -> (e: TempMeldError)
        ensures
            e.error_type == TempMeldType::InvalidCardNumber,
            e.msg@ == msg@,
    {
        TempMeldError { error_type: TempMeldType::InvalidCardNumber, msg: msg.to_owned() }
    }

    pub fn rank(msg: &str) -> (e: TempMeldError)
        ensures
            e.error_type == TempMeldType::InvalidRank,
            e.msg@ == msg@,
    {
        TempMeldError { error_type: TempMeldType::InvalidRank, msg: msg.to_owned() }
    }

    pub fn meld(msg: &str) -> (e: TempMeldError)
        ensures
            e.error_type == TempMeldType::InvalidMeld,
            e.msg@ == msg@,
    {
        TempMeldError { error_type: TempMeldType::InvalidMeld, msg: msg.to_owned() }
    }

    pub fn not_meld_phase(msg: &str) -> (e: TempMeldError)
        ensures
            e.error_type == TempMeldType::NotMeldPhase,
            e.msg@ == msg@,
    {
        TempMeldError { error_type: TempMeldType::NotMeldPhase, msg: msg.to_owned() }
    }

    /// The temporary-meld error for a refused meld operation.
    pub open spec fn kind_of(t: MeldErrorType) -> TempMeldType {
        match t {
            MeldErrorType::InvalidRank => TempMeldType::InvalidRank,
            MeldErrorType::InvalidCard(_) => TempMeldType::InvalidCardNumber,
            MeldErrorType::TooManyWilds(_) => TempMeldType::PushWild,
            MeldErrorType::InvalidIndex => TempMeldType::InvalidCardNumber,
        }
    }

    pub fn from(error: MeldError) -> (e: TempMeldError)
        ensures
            e.error_type == TempMeldError::kind_of(error.error_type),
            e.msg@ == error.msg@,
    {
        match error.error_type {
            MeldErrorType::InvalidRank => TempMeldError::rank(error.msg.as_str()),
            MeldErrorType::InvalidCard(_) => TempMeldError::card_number(error.msg.as_str()),
            MeldErrorType::TooManyWilds(_) => TempMeldError::wild(error.msg.as_str()),
            MeldErrorType::InvalidIndex => TempMeldError::card_number(error.msg.as_str()),
        }
    }
}

/// Why taking the discard pile was refused.
#[derive(Clone, Copy, Debug, PartialEq, Eq, Structural)]
pub enum PackClaimReason {
    /// The pile is empty, or its top card is wild or a Three.
    TopCardUnclaimable,
    /// A named card is not in the player's hand.
    CardNotFound,
    /// A Three was offered.
    ThreeOffered,
    /// A natural card of another suit than the top card was offered.
    SuitMismatch,
    /// The pile is frozen and fewer than two natural cards were offered.
    FrozenMinimum,
    /// The offered cards and the top card do not form a valid meld.
    InvalidMeld,
}

/// Why a table action was refused.
#[derive(Clone, Copy, Debug, PartialEq, Eq, Structural)]
pub enum RuleErrorType {
    /// Another player is to act.
    NotYourTurn,
    /// The action is not legal in the player's current turn phase.
    WrongPhase,
    /// Red threes in hand must be laid aside and replaced first.
    RedThreesPending,
    /// A named card is not in the player's hand.
    CardNotFound,
    /// The cards do not form or extend a valid meld.
    InvalidMeld,
    PackClaim(PackClaimReason),
    /// The deck ran out: the round is over.
    DeckExhausted,
    /// The round has ended; no further play.
    RoundOver,
    /// The cards have already been dealt, or there are not enough to deal.
    InvalidDeal,
    /// No such player.
    InvalidPlayer,
}

#[derive(Debug)]
pub struct RuleError {
    pub error_type: RuleErrorType,
    pub msg: String,
}

impl RuleError {
    pub fn new(error_type: RuleErrorType, msg: &str) -> (e: RuleError)
        ensures
            e.error_type == error_type,
            e.msg@ == msg@,
    {
        RuleError { error_type, msg: msg.to_owned() }
    }
}

/// Why game settings were refused.
#[derive(Clone, Copy, Debug, PartialEq, Eq, Structural)]
pub enum SettingsErrorType {
    InvalidNumberOfPlayers,
    InvalidTeamSize,
    InvalidPlayerRatio,
    InvalidCanastaOut,
    InvalidDealSize,
    InvalidPackCount,
    DuplicateCard,
}

#[derive(Debug)]
pub struct SettingsError {
    pub error_type: SettingsErrorType,
    pub message: String,
}

impl SettingsError {
    pub fn new(error_type: SettingsErrorType, message: &str) -> (e: SettingsError)
        ensures
            e.error_type == error_type,
            e.message@ == message@,
    {
        SettingsError { error_type, message: message.to_owned() }
    }
}

/// Why taking a player out of a game, or putting one back, was refused. A
/// refused player is handed back.
#[derive(Debug)]
pub enum PlayerErrorType {
    InvalidPlayerNumber,
    PlayerAlreadyTaken,
    PlayerFromWrongGame(Player),
    PlayerAlreadyInserted(Player),
}

#[derive(Debug)]
pub struct PlayerError {
    pub error_type: PlayerErrorType,
    pub message: String,
}

impl PlayerError {
    pub fn new(error_type: PlayerErrorType, message: &str) -> (e: PlayerError)
        ensures
            e.error_type == error_type,
            e.message@ == message@,
    {
        PlayerError { error_type, message: message.to_owned() }
    }
}

/// Why an administrative action was refused.
#[derive(Clone, Copy, Debug, PartialEq, Eq, Structural)]
pub enum AdminErrorType {
    GameAlreadyRunning,
}

#[derive(Debug)]
pub struct AdminError {
    pub error_type: AdminErrorType,
    pub message: String,
}

impl AdminError {
    pub fn new(error_type: AdminErrorType, message: &str) -> (e: AdminError)
        ensures
            e.error_type == error_type,
            e.message@ == message@,
    {
        AdminError { error_type, message: message.to_owned() }
    }
}

/// Why no message could be read from the game.
#[derive(Clone, Copy, Debug, PartialEq, Eq, Structural)]
pub enum PlayerMessageErrorType {
    NoMessage,
    GameDisconnected,
}

#[derive(Debug)]
pub struct PlayerMessageError {
    pub error_type: PlayerMessageErrorType,
    pub message: String,
}

impl PlayerMessageError {
    pub fn new(error_type: PlayerMessageErrorType, message: &str) -> (e: PlayerMessageError)
        ensures
            e.error_type == error_type,
            e.message@ == message@,
    {
        PlayerMessageError { error_type, message: message.to_owned() }
    }
}

} // verus!
