//! The client-side state machine: the local player's position, the set
//! of other players last received in a broadcast, and the exit flag.
//! The embedding program maps raw key events to `KeyInput`, feeds
//! events in here one at a time, sends the returned own-position
//! record to the server, and renders `players` plus `own_player`.

use vstd::prelude::*;

use crate::player::Player;

verus! {

/// A keyboard intent, after the embedding program has mapped raw key
/// events to it.
#[derive(Clone, Copy, PartialEq, Eq, Structural, Debug)]
pub enum KeyInput {
    /// Move one cell up.
    MoveUp,
    /// Move two cells left.
    MoveLeft,
    /// Move one cell down.
    MoveDown,
    /// Move two cells right.
    MoveRight,
    /// Leave the application.
    Quit,
    /// Any key without a binding; ignored.
    Other,
}

/// One event of the client loop.
pub enum ClientEvent {
    /// A key was pressed.
    Input(KeyInput),
    /// A broadcast arrived: the current positions of the other players.
    SetPlayers(Vec<Player>),
    /// The client's own position, echoed through the event queue; the
    /// state machine ignores it.
    OwnPosition(Player),
}

/// The position after one key intent: saturating moves, one cell
/// vertically and two cells horizontally, so travel looks even on
/// typical terminal cell aspect ratios.
pub open spec fn spec_apply_key(p: Player, k: KeyInput) -> Player {
    match k {
        KeyInput::MoveUp => Player {
            x: p.x,
            y: if p.y >= 1 {
                (p.y - 1) as u16
            } else {
                0
            },
        },
        KeyInput::MoveLeft => Player {
            x: if p.x >= 2 {
                (p.x - 2) as u16
            } else {
                0
            },
            y: p.y,
        },
        KeyInput::MoveDown => Player {
            x: p.x,
            y: if p.y <= 65534 {
                (p.y + 1) as u16
            } else {
                65535
            },
        },
        KeyInput::MoveRight => Player {
            x: if p.x <= 65533 {
                (p.x + 2) as u16
            } else {
                65535
            },
            y: p.y,
        },
        KeyInput::Quit => p,
        KeyInput::Other => p,
    }
}

/// The client application state.
#[derive(Clone)]
pub struct App {
    pub exit: bool,
    pub players: Vec<Player>,
    pub own_player: Player,
}

impl App {
    /// A fresh client: not exiting, alone, standing at the origin.
    pub fn new() -> (a: App)
        ensures
            !a.exit,
            a.players@ == Seq::<Player>::empty(),
            a.own_player == Player::spec_origin(),
    {
        App { exit: false, players: Vec::new(), own_player: Player::origin() }
    }

    /// Applies one key intent: a quit key raises the exit flag, the
    /// movement keys move the own position, saturating at the edges,
    /// and any other key changes nothing.
    pub fn handle_key_event(&mut self, k: KeyInput)
        ensures
            final(self).own_player == spec_apply_key(old(self).own_player, k),
            final(self).exit == (old(self).exit || k == KeyInput::Quit),
            final(self).players@ == old(self).players@,
    {
        match k {
            KeyInput::MoveUp => {
                self.own_player.y = if self.own_player.y >= 1 {
                    self.own_player.y - 1
                } else {
                    0
                };
            },
            KeyInput::MoveLeft => {
                self.own_player.x = if self.own_player.x >= 2 {
                    self.own_player.x - 2
                } else {
                    0
                };
            },
            KeyInput::MoveDown => {
                self.own_player.y = if self.own_player.y <= 65534 {
                    self.own_player.y + 1
                } else {
                    65535
                };
            },
            KeyInput::MoveRight => {
                self.own_player.x = if self.own_player.x <= 65533 {
                    self.own_player.x + 2
                } else {
                    65535
                };
            },
            KeyInput::Quit => {
                self.exit = true;
            },
            KeyInput::Other => {},
        }
    }

    /// Handles one event. A key press updates the local state and hands
    /// back the (possibly moved) own position for the caller to send to
    /// the server; a broadcast replaces the rendered set of players;
    /// an echoed own position changes nothing.
    pub fn handle_event(&mut self, ev: ClientEvent) -> (own_out: Option<Player>)
        ensures
            match ev {
                ClientEvent::Input(k) => {
                    &&& final(self).own_player == spec_apply_key(old(self).own_player, k)
                    &&& final(self).exit == (old(self).exit || k == KeyInput::Quit)
                    &&& final(self).players@ == old(self).players@
                    &&& own_out == Some(final(self).own_player)
                },
                ClientEvent::SetPlayers(ps) => {
                    &&& final(self).players@ == ps@
                    &&& final(self).own_player == old(self).own_player
                    &&& final(self).exit == old(self).exit
                    &&& own_out == None::<Player>
                },
                ClientEvent::OwnPosition(_) => {
                    &&& *final(self) == *old(self)
                    &&& own_out == None::<Player>
                },
            },
    {
        match ev {
            ClientEvent::Input(k) => {
                self.handle_key_event(k);
                Some(self.own_player)
            },
            ClientEvent::SetPlayers(ps) => {
                self.players = ps;
                None
            },
            ClientEvent::OwnPosition(_) => None,
        }
    }
}

} // verus!
