//! The built-in agents.
//!
//! `HoldAgent` never moves. `ProducerLiteAgent` plans with the planner, and is
//! the primary opponent to train against.

use crate::planner::ProducerLiteConfig;
use crate::state::{GameState, Move};
use vstd::prelude::*;

verus! {

/// The kinds of built-in agents.
#[derive(Clone, Copy, PartialEq, Eq, Structural, Debug)]
pub enum AgentKind {
    Hold,
    ProducerLite,
}

/// The agent that never moves.
#[derive(Clone, Copy, PartialEq, Eq, Structural, Debug)]
pub struct HoldAgent;

/// The agent that plans, with its settings.
#[derive(Clone, Copy, PartialEq, Eq, Structural, Debug)]
pub struct ProducerLiteAgent {
    pub cfg: ProducerLiteConfig,
}

/// A built-in agent.
#[derive(Clone, Copy, PartialEq, Eq, Structural, Debug)]
pub enum BuiltIn {
    Hold(HoldAgent),
    ProducerLite(ProducerLiteAgent),
}

impl AgentKind {
    /// The kind that a number stands for.
    pub open spec fn numbered(v: int) -> AgentKind {
        if v == 4 {
            AgentKind::ProducerLite
        } else {
            AgentKind::Hold
        }
    }

    /// The number that stands for the kind.
    pub open spec fn number(self) -> int {
        match self {
            AgentKind::Hold => 0,
            AgentKind::ProducerLite => 4,
        }
    }

    /// The kind that `v` stands for: 4 is the planner, all else holds.
    pub fn from_i32(v: i32) -> (k: AgentKind)
        ensures
            k == AgentKind::numbered(v as int),
            k == AgentKind::ProducerLite <==> v == 4,
    {
        if v == 4 {
            AgentKind::ProducerLite
        } else {
            AgentKind::Hold
        }
    }

    /// The number that stands for the kind: 0 for holding, 4 for the planner.
    pub fn to_i32(self) -> (v: i32)
        ensures
            v == self.number(),
            self == AgentKind::Hold ==> v == 0,
            self == AgentKind::ProducerLite ==> v == 4,
    {
        match self {
            AgentKind::Hold => 0,
            AgentKind::ProducerLite => 4,
        }
    }

    /// An agent of this kind, with its usual settings.
    pub fn make(&self) -> (agent: BuiltIn)
        ensures
            match self {
                AgentKind::Hold => agent == BuiltIn::Hold(HoldAgent),
                AgentKind::ProducerLite => agent == BuiltIn::ProducerLite(
                    ProducerLiteAgent { cfg: crate::planner::default_settings() },
                ),
            },
    {
        match self {
            AgentKind::Hold => BuiltIn::Hold(HoldAgent),
            AgentKind::ProducerLite => BuiltIn::ProducerLite(ProducerLiteAgent::default()),
        }
    }
}

/// Each kind is the one that its number stands for. The planner's number is 4, and
/// nothing else stands for it.
pub proof fn lemma_kind_number(k: AgentKind)
    ensures
        AgentKind::numbered(k.number()) == k,
        k.number() == 4 <==> k == AgentKind::ProducerLite,
        k.number() == 0 <==> k == AgentKind::Hold,
        forall|v: int| #[trigger] AgentKind::numbered(v) == AgentKind::ProducerLite <==> v == 4,
{
}

impl HoldAgent {
    pub fn name(&self) -> (s: &'static str)
        ensures
            s@ == "hold"@,
    {
        "hold"
    }

    /// No orders, whatever the state of the game.
    pub fn act(&self, _g: &GameState, _player: i64, _step: i64) -> (moves: Vec<Move>)
        ensures
            moves@ == Seq::<Move>::empty(),
    {
        Vec::new()
    }
}

impl ProducerLiteAgent {
    pub fn name(&self) -> (s: &'static str)
        ensures
            s@ == "producer_lite"@,
    {
        "producer_lite"
    }
}

impl Default for ProducerLiteAgent {
    fn default() -> (agent: ProducerLiteAgent)
        ensures
            agent.cfg == crate::planner::default_settings(),
    {
        ProducerLiteAgent { cfg: ProducerLiteConfig::default() }
    }
}

impl BuiltIn {
    pub fn name(&self) -> (s: &'static str)
        ensures
            s@ == (match self {
                BuiltIn::Hold(_) => "hold"@,
                BuiltIn::ProducerLite(_) => "producer_lite"@,
            }),
    {
        match self {
            BuiltIn::Hold(a) => a.name(),
            BuiltIn::ProducerLite(a) => a.name(),
        }
    }
}

} // verus!
