//! The node kinds of a game tree.
use vstd::prelude::*;
use vstd::string::StringExecFns;
use crate::actions::Action;
use crate::state::BettingRound;

verus! {

/// A decision of one player.
#[derive(Debug)]
pub struct ActionNode {
    pub actions: Vec<Action>,
    /// Row of the node in the infoset table.
    pub index: usize,
    pub player: u8,
    pub round_idx: u8,
}

/// How a hand ends: a player is all-in, the cards are shown down, or
/// everyone else folded.
#[derive(Debug, Clone, Copy, PartialEq, Eq, Structural)]
pub enum TerminalType {
    ALLIN,
    SHOWDOWN,
    UNCONTESTED,
}

impl TerminalType {
    /// The variant's name.
    pub fn to_string(&self) -> (s: String)
        ensures
            s@ == match self {
                TerminalType::ALLIN => "ALLIN"@,
                TerminalType::SHOWDOWN => "SHOWDOWN"@,
                TerminalType::UNCONTESTED => "UNCONTESTED"@,
            },
    {
        match self {
            TerminalType::ALLIN => String::from_str("ALLIN"),
            TerminalType::SHOWDOWN => String::from_str("SHOWDOWN"),
            TerminalType::UNCONTESTED => String::from_str("UNCONTESTED"),
        }
    }
}

/// The end of a hand.
#[derive(Debug)]
pub struct TerminalNode {
    /// Size of the pot (after rake).
    pub value: u32,
    pub ttype: TerminalType,
    pub last_to_act: u8,
    pub round: BettingRound,
    /// Each player's wager at the end, by seat: the winner gets, from each
    /// other player, the smaller of the two wagers; losers lose theirs.
    pub player_wagers: Vec<u32>,
}

/// The deal of a public card before `round`.
#[derive(Debug)]
pub struct PublicChanceNode {
    pub round: BettingRound,
}

/// A node of the game tree.
#[derive(Debug)]
pub enum GameTreeNode {
    Action(ActionNode),
    Terminal(TerminalNode),
    PublicChance(PublicChanceNode),
    PrivateChance,
}

} // verus!
