//! One game, played from its seed to its end.

use crate::double::Double;
use crate::motion::PlanetMotion;
use crate::state::{Config, GameState};
use crate::tick::{resolve_tick, FleetMove, StepOutcome};
use vstd::prelude::*;

verus! {

use crate::state::GameModel;

/// A game with its settings, its seed, and how far it is.
pub struct Env {
    pub state: GameState,
    pub cfg: Config,
    pub seed: u64,
    pub num_agents: usize,
    pub cur_step: i64,
    pub done: bool,
}

/// A game in which there is nothing yet.
pub open spec fn empty_game() -> GameModel {
    GameModel {
        planets: Seq::empty(),
        fleets: Seq::empty(),
        next_fleet_id: 0,
        comets: Seq::empty(),
        comet_planet_ids: Seq::empty(),
        initial_planets: Seq::empty(),
        angular_velocity: Double { bits: 0 },
    }
}

impl Env {
    /// An environment with the given settings, before its first game.
    pub fn new(cfg: Config) -> (e: Env)
        ensures
            e.state@ == empty_game(),
            e.state@.planets.len() == 0 && e.state@.fleets.len() == 0 && e.state@.comets.len() == 0,
            e.state@.initial_planets.len() == 0 && e.state@.comet_planet_ids.len() == 0,
            e.state@.next_fleet_id == 0 && e.state@.angular_velocity.bits == 0,
            e.state@.valid(),
            e.cfg == cfg,
            e.seed == 0,
            e.num_agents == 2,
            e.cur_step == 0,
            !e.done,
    {
        let state = GameState {
            planets: Vec::new(),
            fleets: Vec::new(),
            next_fleet_id: 0,
            comets: Vec::new(),
            comet_planet_ids: Vec::new(),
            initial_planets: Vec::new(),
            angular_velocity: Double { bits: 0 },
        };
        assert(state@ =~= empty_game());
        Env { state, cfg, seed: 0, num_agents: 2, cur_step: 0, done: false }
    }

    /// Starts the game `state`, which `seed` gives for `num_agents` players.
    pub fn reset(&mut self, seed: u64, num_agents: usize, state: GameState)
        ensures
            final(self).state == state,
            final(self).cfg == old(self).cfg,
            final(self).seed == seed,
            final(self).num_agents == num_agents,
            final(self).cur_step == 0,
            !final(self).done,
    {
        self.seed = seed;
        self.num_agents = num_agents;
        self.cur_step = 0;
        self.done = false;
        self.state = state;
    }

    /// Ends the current tick and goes on to the next step.
    pub fn finish_step(&mut self, motion: &PlanetMotion, moves: &Vec<FleetMove>, num_agents: usize) -> (out: StepOutcome)
        requires
            old(self).state@.valid(),
            old(self).state@.ships_in_play() <= i64::MAX,
            motion@.paths.len() == old(self).state@.planets.len(),
            crate::tick::flights_fit(old(self).state@.fleets, moves@, motion@.paths),
            old(self).cfg.episode_steps >= i64::MIN + 2,
            old(self).cur_step < i64::MAX,
            num_agents > 0 || !crate::tick::game_over(
                crate::tick::resolved(old(self).state@, motion@, moves@),
                old(self).cur_step,
                old(self).cfg.episode_steps,
            ),
        ensures
            final(self).state@ == crate::tick::resolved(old(self).state@, motion@, moves@),
            final(self).state@.valid(),
            final(self).cfg == old(self).cfg,
            final(self).seed == old(self).seed,
            final(self).num_agents == old(self).num_agents,
            final(self).cur_step == old(self).cur_step + 1,
            final(self).done == out.terminated,
            out.terminated == crate::tick::game_over(
                final(self).state@,
                old(self).cur_step,
                old(self).cfg.episode_steps,
            ),
            match out.rewards {
                Some(r) => out.terminated && r@ == crate::tick::all_rewards(final(self).state@, num_agents as nat),
                None => !out.terminated,
            },
    {
        let out = resolve_tick(
            &mut self.state,
            motion,
            moves,
            num_agents,
            self.cur_step,
            self.cfg.episode_steps,
        );
        self.cur_step = self.cur_step + 1;
        self.done = out.terminated;
        out
    }

    pub fn step_index(&self) -> (r: i64)
        ensures
            r == self.cur_step,
    {
        self.cur_step
    }

    pub fn done(&self) -> (r: bool)
        ensures
            r == self.done,
    {
        self.done
    }

    pub fn num_agents(&self) -> (r: usize)
        ensures
            r == self.num_agents,
    {
        self.num_agents
    }
}

} // verus!
