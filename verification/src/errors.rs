//! Error kinds produced by the draft core.
//!
//! Every fallible operation of the library reports one of these variants; the
//! lobby manager turns them into short human-readable reply strings.

use vstd::prelude::*;

verus! {

/// The error kinds the draft core can produce on bad user input.
#[derive(Clone, Copy, Debug, PartialEq, Eq, Structural)]
pub enum DraftError {
    /// A request addressed a lobby id that is not active.
    LobbyNotFound,
    /// A lobby was created for a draft set name the database does not hold.
    SetUnknown,
    /// A player tried to join, or a start was requested, after the draft began.
    AlreadyStarted,
    /// A pick or query needed a running draft, but none has started.
    NotStarted,
    /// A player tried to join a lobby that already holds its capacity.
    LobbyFull,
    /// A player tried to join under a name another joined player already uses.
    NameConflict,
    /// A start was requested for a lobby nobody has joined.
    EmptyLobby,
    /// A pick named a player id that is not part of the draft.
    PlayerNotFound,
    /// A pick was made by a player whose pending-pack queue is empty.
    NoPacks,
    /// A pick named an item that is not in the head pack's current contents.
    ItemNotInPack,
    /// Pack generation was asked for more items than the item list holds.
    PackGenInsufficientItems,
    /// An update listener's reply channel was closed by the receiver.
    ListenerClosed,
}

/// The reply string the lobby manager reports for each error kind.
pub open spec fn spec_error_message(e: DraftError) -> Seq<char> {
    match e {
        DraftError::LobbyNotFound => "Lobby not found"@,
        DraftError::SetUnknown => "Unknown draft set"@,
        DraftError::AlreadyStarted => "Game has already started"@,
        DraftError::NotStarted => "Draft hasn't started yet"@,
        DraftError::LobbyFull => "Lobby full"@,
        DraftError::NameConflict => "Player name has already joined"@,
        DraftError::EmptyLobby => "Lobby has no players"@,
        DraftError::PlayerNotFound => "Couldn't find player"@,
        DraftError::NoPacks => "Player had no packs"@,
        DraftError::ItemNotInPack => "Couldn't find item in pack"@,
        DraftError::PackGenInsufficientItems => "Not enough unique items for the requested packs"@,
        DraftError::ListenerClosed => "Receiver has dropped"@,
    }
}

impl DraftError {
    /// The short human-readable string for this error kind.
    pub fn message(&self) -> (s: String)
        ensures
            s@ == spec_error_message(*self),
    {
        match self {
            DraftError::LobbyNotFound => "Lobby not found".to_owned(),
            DraftError::SetUnknown => "Unknown draft set".to_owned(),
            DraftError::AlreadyStarted => "Game has already started".to_owned(),
            DraftError::NotStarted => "Draft hasn't started yet".to_owned(),
            DraftError::LobbyFull => "Lobby full".to_owned(),
            DraftError::NameConflict => "Player name has already joined".to_owned(),
            DraftError::EmptyLobby => "Lobby has no players".to_owned(),
            DraftError::PlayerNotFound => "Couldn't find player".to_owned(),
            DraftError::NoPacks => "Player had no packs".to_owned(),
            DraftError::ItemNotInPack => "Couldn't find item in pack".to_owned(),
            DraftError::PackGenInsufficientItems => {
                "Not enough unique items for the requested packs".to_owned()
            },
            DraftError::ListenerClosed => "Receiver has dropped".to_owned(),
        }
    }
}

} // verus!
