//! Lobby packets: team selection and match start.

use vstd::prelude::*;

verus! {

/// Player lobby command sent from client → server (2 bytes on the wire).
///
/// Wire layout: [kind: u8] [team: u8]
#[derive(Debug, Clone, Copy, PartialEq, Eq, Structural)]
pub struct LobbyCommand {
    /// Which command should be applied.
    pub kind: LobbyCommandKind,
    /// Team index in `[1, 2]` for `SelectTeam`, ignored for `StartGame`.
    pub team: u8,
}

impl LobbyCommand {
    /// A team-selection command; any team other than `2` selects team `1`.
    pub fn select_team(team: u8) -> (r: LobbyCommand)
        ensures
            r.kind == LobbyCommandKind::SelectTeam,
            r.team == (if team == 2 { 2u8 } else { 1u8 }),
    {
        LobbyCommand { kind: LobbyCommandKind::SelectTeam, team: if team == 2 { 2 } else { 1 } }
    }

    /// The command that starts the match.
    pub fn start_game() -> (r: LobbyCommand)
        ensures
            r.kind == LobbyCommandKind::StartGame,
            r.team == 0,
    {
        LobbyCommand { kind: LobbyCommandKind::StartGame, team: 0 }
    }
}

/// Discriminant for [`LobbyCommand`].
#[derive(Debug, Clone, Copy, PartialEq, Eq, Structural)]
pub enum LobbyCommandKind {
    SelectTeam,
    StartGame,
}

impl LobbyCommandKind {
    pub open spec fn spec_code(self) -> u8 {
        match self {
            LobbyCommandKind::SelectTeam => 0,
            LobbyCommandKind::StartGame => 1,
        }
    }

    pub open spec fn spec_from_u8(v: u8) -> Option<LobbyCommandKind> {
        if v == 0 {
            Some(LobbyCommandKind::SelectTeam)
        } else if v == 1 {
            Some(LobbyCommandKind::StartGame)
        } else {
            None
        }
    }

    pub fn code(self) -> (r: u8)
        ensures
            r == self.spec_code(),
    {
        match self {
            LobbyCommandKind::SelectTeam => 0,
            LobbyCommandKind::StartGame => 1,
        }
    }

    pub fn from_u8(v: u8) -> (r: Option<LobbyCommandKind>)
        ensures
            r == LobbyCommandKind::spec_from_u8(v),
    {
        match v {
            0 => Some(LobbyCommandKind::SelectTeam),
            1 => Some(LobbyCommandKind::StartGame),
            _ => None,
        }
    }
}

/// Current lobby state sent from server → client (4 bytes on the wire).
///
/// Wire layout: [game_started: u8] [your_team: u8] [team1_count: u8] [team2_count: u8]
#[derive(Debug, Clone, Copy, PartialEq, Eq, Structural)]
pub struct LobbyState {
    /// `true` after the match has started.
    pub game_started: bool,
    /// Team selection for this client (`0` = none, `1` = team 1, `2` = team 2).
    pub your_team: u8,
    /// Number of players currently assigned to team 1.
    pub team1_count: u8,
    /// Number of players currently assigned to team 2.
    pub team2_count: u8,
}

} // verus!
