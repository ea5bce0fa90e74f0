//! Messages between a hosted game and its players.
use vstd::prelude::*;
use crate::card::Card;

verus! {

/// What the game asks of a player.
#[derive(Clone, Copy, Debug, PartialEq, Eq, Structural)]
pub enum ActionRequestType {
    Draw,
    MeldThrow,
}

/// A request for an action; `code` ties the reply to this request.
#[derive(Clone, Copy, Debug, PartialEq, Eq, Structural)]
pub struct ActionRequest {
    pub code: u32,
    pub action_type: ActionRequestType,
}

/// Why an action was denied.
#[derive(Clone, Copy, Debug, PartialEq, Eq, Structural)]
pub enum ActionDenyType {
    InvalidCardsTakePack,
    InvalidCardsMeld,
    FirstMeldPoints,
}

#[derive(Debug)]
pub struct ActionDeny {
    pub deny_type: ActionDenyType,
    pub msg: String,
}

/// The kinds of message a player receives.
#[derive(Debug)]
pub enum PlayerMessageType {
    /// The game has started; a copy of the discard pile, bottom card first.
    GameStarted(Vec<Card>),
    ActionRequest(ActionRequest),
    DenyAction(ActionDeny),
    GameUpdate,
}

/// A message to a player: its content, which can be taken once, and a text.
#[derive(Debug)]
pub struct PlayerMessage {
    pub msg_type: Option<PlayerMessageType>,
    pub text: String,
}

impl PlayerMessage {
    pub fn new(msg_type: PlayerMessageType, text: &str) -> (m: PlayerMessage)
        ensures
            m.msg_type == Some(msg_type),
            m.text@ == text@,
    {
        PlayerMessage { msg_type: Some(msg_type), text: text.to_owned() }
    }

    /// Takes the content out of the message; a second call returns `None`.
    pub fn get_type(&mut self) -> (r: Option<PlayerMessageType>)
        ensures
            r == old(self).msg_type,
            final(self).msg_type is None,
            final(self).text == old(self).text,
    {
        self.msg_type.take()
    }

    pub fn read(&self) -> (r: String)
        ensures
            r@ == self.text@,
    {
        self.text.clone()
    }
}

} // verus!
