//! Many games played side by side: seeds, opponents, orders, rewards and the
//! layout of what players observe.

use crate::agents::AgentKind;
use crate::double::Double;
use crate::features::{standing, Standing};
use crate::state::{has_id, Config, GameState, Move, Planet};
use crate::tick::StepOutcome;
use vstd::prelude::*;

verus! {

use crate::state::GameModel;

/// Planets and fleets that an observation has room for.
pub const MAX_PLANETS: usize = 48;

pub const MAX_FLEETS: usize = 128;

/// Numbers for each planet and each fleet.
pub const P_FEAT: usize = 10;

pub const F_FEAT: usize = 7;

/// Numbers for the game as a whole: the angular velocity and the step.
pub const GLOBAL_EXTRA: usize = 2;

/// Numbers in an observation.
pub const OBS_DIM: usize = 1378;

/// Where the numbers of planet `i` start.
pub fn planet_base(i: usize) -> (b: usize)
    requires
        i < MAX_PLANETS,
    ensures
        b == i * P_FEAT,
        b == i * 10,
        b + P_FEAT <= MAX_PLANETS * P_FEAT,
{
    i * P_FEAT
}

/// Where the numbers of fleet `j` start: after those of all planets.
pub fn fleet_base(j: usize) -> (b: usize)
    requires
        j < MAX_FLEETS,
    ensures
        b == MAX_PLANETS * P_FEAT + j * F_FEAT,
        b == 480 + j * 7,
        b + F_FEAT <= MAX_PLANETS * P_FEAT + MAX_FLEETS * F_FEAT,
{
    MAX_PLANETS * P_FEAT + j * F_FEAT
}

/// Where the numbers for the game as a whole start: at the end.
pub fn global_base() -> (b: usize)
    ensures
        b == MAX_PLANETS * P_FEAT + MAX_FLEETS * F_FEAT,
        b == 1376,
        b + GLOBAL_EXTRA == OBS_DIM,
{
    MAX_PLANETS * P_FEAT + MAX_FLEETS * F_FEAT
}

/// How a player sees a planet: whose it is, and whether it is a comet.
#[derive(Clone, Copy, PartialEq, Eq, Structural, Debug)]
pub struct PlanetFlags {
    pub standing: Standing,
    pub comet: bool,
}

/// How `player` sees the planets that an observation has room for.
pub open spec fn planet_views(g: GameModel, player: i64) -> Seq<PlanetFlags> {
    Seq::new(
        crate::features::at_most(g.planets.len(), MAX_PLANETS as nat),
        |i: int|
            PlanetFlags {
                standing: crate::features::seen_as(g.planets[i].owner, player),
                comet: g.comet_planet_ids.contains(g.planets[i].id),
            },
    )
}

/// Which of the fleets that an observation has room for are the player's.
pub open spec fn fleet_views(g: GameModel, player: i64) -> Seq<bool> {
    Seq::new(
        crate::features::at_most(g.fleets.len(), MAX_FLEETS as nat),
        |j: int| g.fleets[j].owner == player,
    )
}

/// What an observation says of planets and fleets, besides numbers of theirs.
pub struct ObsPlan {
    pub planets: Vec<PlanetFlags>,
    pub fleets: Vec<bool>,
}

/// Plans what `player` observes.
pub fn plan_obs(g: &GameState, player: i64) -> (r: ObsPlan)
    ensures
        r.planets@ == planet_views(g@, player),
        r.fleets@ == fleet_views(g@, player),
        r.planets@.len() <= g@.planets.len() && r.planets@.len() <= 48,
        r.planets@.len() == g@.planets.len() || r.planets@.len() == 48,
        forall|i: int|
            0 <= i < r.planets@.len() ==> {
                &&& (#[trigger] r.planets@[i]).standing == Standing::Mine <==> g@.planets[i].owner == player
                &&& r.planets@[i].standing == Standing::Enemy <==> g@.planets[i].owner != player
                    && g@.planets[i].owner != -1
                &&& r.planets@[i].comet <==> g@.comet_planet_ids.contains(g@.planets[i].id)
            },
        r.fleets@.len() <= g@.fleets.len() && r.fleets@.len() <= 128,
        r.fleets@.len() == g@.fleets.len() || r.fleets@.len() == 128,
        forall|j: int|
            0 <= j < r.fleets@.len() ==> (#[trigger] r.fleets@[j] <==> g@.fleets[j].owner == player),
{
    let mut planets: Vec<PlanetFlags> = Vec::new();
    while planets.len() < g.planets.len() && planets.len() < MAX_PLANETS
        invariant
            planets@.len() <= g.planets@.len(),
            planets@.len() <= MAX_PLANETS,
            planets@ =~= planet_views(g@, player).take(planets@.len() as int),
        decreases MAX_PLANETS - planets@.len(),
    {
        let i: usize = planets.len();
        let p = g.planets[i];
        planets.push(
            PlanetFlags { standing: standing(p.owner, player), comet: has_id(&g.comet_planet_ids, p.id) },
        );
        assert(planets@[i as int] == planet_views(g@, player)[i as int]);
    }
    assert(planets@ =~= planet_views(g@, player));
    let mut fleets: Vec<bool> = Vec::new();
    while fleets.len() < g.fleets.len() && fleets.len() < MAX_FLEETS
        invariant
            fleets@.len() <= g.fleets@.len(),
            fleets@.len() <= MAX_FLEETS,
            fleets@ =~= fleet_views(g@, player).take(fleets@.len() as int),
        decreases MAX_FLEETS - fleets@.len(),
    {
        let j: usize = fleets.len();
        fleets.push(g.fleets[j].owner == player);
    }
    assert(fleets@ =~= fleet_views(g@, player));
    ObsPlan { planets, fleets }
}

/// A launch given by the place of its planet.
#[derive(Clone, Copy, PartialEq, Eq, Structural, Debug)]
pub struct PlaceOrder {
    pub place: usize,
    pub angle: Double,
    pub ships: i64,
}

/// The orders that `rows` stand for: those with ships, from places that exist.
pub open spec fn moves_by_place(planets: Seq<Planet>, rows: Seq<PlaceOrder>) -> Seq<Move>
    decreases rows.len(),
{
    if rows.len() == 0 {
        Seq::empty()
    } else {
        let front = moves_by_place(planets, rows.drop_last());
        let row = rows.last();
        if row.ships > 0 && row.place < planets.len() {
            front.push(Move { from_id: planets[row.place as int].id, angle: row.angle, ships: row.ships })
        } else {
            front
        }
    }
}

/// A row stands for one order or for none: for one where it has ships and a planet is
/// in its place, and this order launches these ships from that planet at its angle.
/// Rows stand for their orders one after the other.
pub proof fn lemma_moves_by_place(planets: Seq<Planet>, rows: Seq<PlaceOrder>, row: PlaceOrder)
    ensures
        ({
            let before = moves_by_place(planets, rows);
            let after = moves_by_place(planets, rows.push(row));
            &&& row.ships <= 0 || row.place >= planets.len() ==> after == before
            &&& row.ships > 0 && row.place < planets.len() ==> {
                &&& after.len() == before.len() + 1
                &&& after.take(before.len() as int) == before
                &&& after.last().from_id == planets[row.place as int].id
                &&& after.last().angle == row.angle
                &&& after.last().ships == row.ships
            }
        }),
        moves_by_place(planets, Seq::empty()) == Seq::<Move>::empty(),
{
    assert(rows.push(row).drop_last() =~= rows);
    let before = moves_by_place(planets, rows);
    let after = moves_by_place(planets, rows.push(row));
    if row.ships > 0 && row.place < planets.len() {
        assert(after.take(before.len() as int) =~= before);
    }
}

/// Turns places into planet ids, and leaves out launches without ships and
/// places that do not exist.
pub fn place_moves(planets: &Vec<Planet>, rows: &Vec<PlaceOrder>) -> (r: Vec<Move>)
    ensures
        r@ == moves_by_place(planets@, rows@),
{
    let mut r: Vec<Move> = Vec::new();
    let mut i: usize = 0;
    assert(rows@.take(0) =~= Seq::<PlaceOrder>::empty());
    while i < rows.len()
        invariant
            i <= rows@.len(),
            r@ == moves_by_place(planets@, rows@.take(i as int)),
        decreases rows@.len() - i,
    {
        assert(rows@.take(i + 1).drop_last() =~= rows@.take(i as int));
        let row = rows[i];
        if row.ships > 0 && row.place < planets.len() {
            r.push(Move { from_id: planets[row.place].id, angle: row.angle, ships: row.ships });
        }
        i += 1;
    }
    assert(rows@.take(i as int) =~= rows@);
    r
}

/// The orders with ships.
pub open spec fn with_ships(moves: Seq<Move>) -> Seq<Move>
    decreases moves.len(),
{
    if moves.len() == 0 {
        Seq::empty()
    } else {
        let front = with_ships(moves.drop_last());
        if moves.last().ships > 0 {
            front.push(moves.last())
        } else {
            front
        }
    }
}

/// What is kept are the orders that send ships, in their order.
pub proof fn lemma_with_ships(moves: Seq<Move>)
    ensures
        with_ships(moves) == moves.filter(|m: Move| m.ships > 0),
    decreases moves.len(),
{
    reveal(Seq::filter);
    if moves.len() > 0 {
        lemma_with_ships(moves.drop_last());
    }
}

/// Leaves out orders without ships.
pub fn keep_moves(moves: &Vec<Move>) -> (r: Vec<Move>)
    ensures
        r@ == with_ships(moves@),
        r@ == moves@.filter(|m: Move| m.ships > 0),
{
    proof {
        lemma_with_ships(moves@);
    }
    let mut r: Vec<Move> = Vec::new();
    let mut i: usize = 0;
    assert(moves@.take(0) =~= Seq::<Move>::empty());
    while i < moves.len()
        invariant
            i <= moves@.len(),
            r@ == with_ships(moves@.take(i as int)),
        decreases moves@.len() - i,
    {
        assert(moves@.take(i + 1).drop_last() =~= moves@.take(i as int));
        if moves[i].ships > 0 {
            r.push(moves[i]);
        }
        i += 1;
    }
    assert(moves@.take(i as int) =~= moves@);
    r
}

/// Games played side by side.
pub struct VecEnv {
    pub envs: Vec<GameState>,
    pub cfg: Config,
    pub seeds: Vec<u64>,
    pub cur_step: Vec<i64>,
    pub num_agents: usize,
    pub n: usize,
    pub next_seed: u64,
    pub opponents: Vec<Vec<Option<AgentKind>>>,
}

/// What becomes of the step of each game: on to the next.
pub open spec fn advanced(steps: Seq<i64>) -> Seq<i64> {
    Seq::new(steps.len(), |e: int| (steps[e] + 1) as i64)
}

/// The reward of player `i` in a tick that ended with `out`: 0 where none was
/// given.
pub open spec fn reward_in(out: StepOutcome, i: int) -> i32 {
    match out.rewards {
        Some(r) => if i < r@.len() {
            r@[i] as i32
        } else {
            0
        },
        None => 0,
    }
}

/// The rewards of `a` players in a tick that ended with `out`.
pub open spec fn reward_row(out: StepOutcome, a: nat) -> Seq<i32> {
    Seq::new(a, |i: int| reward_in(out, i))
}

/// The rewards of `a` players in each game, one game after the other.
pub open spec fn reward_table(outs: Seq<StepOutcome>, a: nat) -> Seq<i32>
    decreases outs.len(),
{
    if outs.len() == 0 {
        Seq::empty()
    } else {
        reward_table(outs.drop_last(), a) + reward_row(outs.last(), a)
    }
}

/// What the list of all rewards says of player `i` of game `e`, with `a` players in
/// every game.
pub open spec fn paid(rewards: Seq<i32>, a: nat, e: int, i: int) -> i32 {
    rewards[e * a + i]
}

/// Of every game, each player is paid what it won there, and nothing where the game has
/// not ended or has no reward for it.
pub proof fn lemma_paid(outs: Seq<StepOutcome>, a: nat)
    requires
        a > 0,
    ensures
        reward_table(outs, a).len() == outs.len() * a,
        forall|e: int, i: int|
            0 <= e < outs.len() && 0 <= i < a ==> (#[trigger] paid(reward_table(outs, a), a, e, i)) == (
            match outs[e].rewards {
                Some(w) => if i < w@.len() {
                    w@[i] as i32
                } else {
                    0
                },
                None => 0,
            }),
{
    if outs.len() == 0 {
        assert(0 * a == 0);
    } else {
        lemma_reward_table(outs, a, 0, 0);
        assert forall|e: int, i: int| 0 <= e < outs.len() && 0 <= i < a implies (#[trigger] paid(
            reward_table(outs, a),
            a,
            e,
            i,
        )) == (match outs[e].rewards {
            Some(w) => if i < w@.len() {
                w@[i] as i32
            } else {
                0
            },
            None => 0,
        }) by {
            lemma_reward_table(outs, a, e, i);
        }
    }
}

/// The greatest of the seeds, or 0 where there are none.
pub open spec fn top_seed(seeds: Seq<u64>) -> int
    decreases seeds.len(),
{
    if seeds.len() == 0 {
        0
    } else {
        let front = top_seed(seeds.drop_last());
        if seeds.last() > front {
            seeds.last() as int
        } else {
            front
        }
    }
}

/// No seed is greater than the greatest one, which is one of them.
pub proof fn lemma_top_seed(seeds: Seq<u64>)
    ensures
        0 <= top_seed(seeds) <= u64::MAX,
        seeds.len() == 0 ==> top_seed(seeds) == 0,
        forall|e: int| 0 <= e < seeds.len() ==> #[trigger] seeds[e] <= top_seed(seeds),
        seeds.len() > 0 ==> exists|e: int| 0 <= e < seeds.len() && #[trigger] seeds[e] == top_seed(seeds),
    decreases seeds.len(),
{
    if seeds.len() > 0 {
        let front = seeds.drop_last();
        lemma_top_seed(front);
        assert forall|e: int| 0 <= e < seeds.len() implies #[trigger] seeds[e] <= top_seed(seeds) by {
            if e < front.len() {
                assert(front[e] == seeds[e]);
            }
        }
        let last = seeds.len() - 1;
        if seeds[last] > top_seed(front) || front.len() == 0 {
            assert(seeds[last] == top_seed(seeds));
        } else {
            let e = choose|e: int| 0 <= e < front.len() && #[trigger] front[e] == top_seed(front);
            assert(seeds[e] == top_seed(seeds));
        }
    }
}

/// How many of the first `n` games are over.
pub open spec fn over(term: Seq<bool>, n: nat) -> nat
    decreases n,
{
    if n == 0 {
        0
    } else {
        over(term, (n - 1) as nat) + (if term[n - 1] {
            1nat
        } else {
            0
        })
    }
}

/// Which games the outcomes of a tick end.
pub open spec fn ended(outs: Seq<StepOutcome>) -> Seq<bool> {
    Seq::new(outs.len(), |e: int| outs[e].terminated)
}

/// The games among the first `n` that are over, each with a seed of its own,
/// counted on from `next`.
pub open spec fn restarts(term: Seq<bool>, next: int, n: nat) -> Seq<(usize, u64)>
    decreases n,
{
    if n == 0 {
        Seq::empty()
    } else {
        let front = restarts(term, next, (n - 1) as nat);
        if term[n - 1] {
            front.push(((n - 1) as usize, (next + front.len()) as u64))
        } else {
            front
        }
    }
}

impl VecEnv {
    /// Every game has its step and its opponents; and once there are games,
    /// every one has its seed, which is less than the next one to be used.
    pub open spec fn valid(self) -> bool {
        &&& self.num_agents >= 1
        &&& self.cur_step@.len() == self.n
        &&& self.opponents@.len() == self.n
        &&& forall|e: int| 0 <= e < self.n ==> (#[trigger] self.opponents@[e])@.len() == self.num_agents - 1
        &&& self.seeds@.len() == self.envs@.len()
        &&& self.envs@.len() == self.n || self.envs@.len() == 0
        &&& forall|e: int| 0 <= e < self.seeds@.len() ==> #[trigger] self.seeds@[e] < self.next_seed
    }

    /// Room for `num_envs` games of `num_agents` players, with no opponents yet.
    pub fn new(num_envs: usize, num_agents: usize, cfg: Config) -> (v: VecEnv)
        requires
            num_agents >= 1,
        ensures
            v.valid(),
            v.envs@.len() == 0,
            v.cfg == cfg,
            v.num_agents == num_agents,
            v.n == num_envs,
            v.next_seed == 0,
            forall|e: int| 0 <= e < num_envs ==> #[trigger] v.cur_step@[e] == 0,
            forall|e: int, s: int|
                0 <= e < num_envs && 0 <= s < num_agents - 1 ==> (#[trigger] v.opponents@[e]@[s]) is None,
    {
        let mut cur_step: Vec<i64> = Vec::new();
        let mut opponents: Vec<Vec<Option<AgentKind>>> = Vec::new();
        while cur_step.len() < num_envs
            invariant
                num_agents >= 1,
                cur_step@.len() <= num_envs,
                opponents@.len() == cur_step@.len(),
                forall|e: int| 0 <= e < cur_step@.len() ==> #[trigger] cur_step@[e] == 0,
                forall|e: int| 0 <= e < opponents@.len() ==> (#[trigger] opponents@[e])@.len() == num_agents - 1,
                forall|e: int, s: int|
                    0 <= e < opponents@.len() && 0 <= s < num_agents - 1 ==> (#[trigger] opponents@[e]@[s]) is None,
            decreases num_envs - cur_step@.len(),
        {
            let mut slots: Vec<Option<AgentKind>> = Vec::new();
            while slots.len() < num_agents - 1
                invariant
                    num_agents >= 1,
                    slots@.len() <= num_agents - 1,
                    forall|s: int| 0 <= s < slots@.len() ==> (#[trigger] slots@[s]) is None,
                decreases num_agents - 1 - slots@.len(),
            {
                slots.push(None);
            }
            cur_step.push(0);
            opponents.push(slots);
        }
        VecEnv {
            envs: Vec::new(),
            cfg,
            seeds: Vec::new(),
            cur_step,
            num_agents,
            n: num_envs,
            next_seed: 0,
            opponents,
        }
    }

    /// Sets the opponents of all games: `agent_kinds` lists those of players 1
    /// and up, one game after the other.
    pub fn set_opponents(&mut self, agent_kinds: &Vec<i32>)
        requires
            old(self).valid(),
            agent_kinds@.len() == old(self).n * (old(self).num_agents - 1),
        ensures
            final(self).valid(),
            final(self).envs == old(self).envs,
            final(self).cfg == old(self).cfg,
            final(self).seeds == old(self).seeds,
            final(self).cur_step == old(self).cur_step,
            final(self).num_agents == old(self).num_agents,
            final(self).n == old(self).n,
            final(self).next_seed == old(self).next_seed,
            forall|e: int, s: int|
                0 <= e < old(self).n && 0 <= s < old(self).num_agents - 1 ==> (#[trigger] final(self).opponents@[e]@[s])
                    == Some(AgentKind::numbered(agent_kinds@[e * (old(self).num_agents - 1) + s] as int)),
    {
        let slots: usize = self.num_agents - 1;
        let total: usize = agent_kinds.len();
        let n: usize = self.n;
        let mut all: Vec<Vec<Option<AgentKind>>> = Vec::new();
        let mut at: usize = 0;
        assert(0 * slots == 0) by (nonlinear_arith);
        while all.len() < n
            invariant
                all@.len() <= n,
                total == agent_kinds@.len(),
                total == n * slots,
                at == all@.len() * slots,
                forall|e: int| 0 <= e < all@.len() ==> (#[trigger] all@[e])@.len() == slots,
                forall|e: int, s: int|
                    0 <= e < all@.len() && 0 <= s < slots ==> (#[trigger] all@[e]@[s]) == Some(
                        AgentKind::numbered(agent_kinds@[e * slots + s] as int),
                    ),
            decreases n - all@.len(),
        {
            let ghost e = all@.len() as int;
            assert(e * slots + slots <= n * slots && (e + 1) * slots == e * slots + slots) by (nonlinear_arith)
                requires
                    e + 1 <= n,
                    slots >= 0,
            ;
            let mut row: Vec<Option<AgentKind>> = Vec::new();
            while row.len() < slots
                invariant
                    row@.len() <= slots,
                    total == agent_kinds@.len(),
                    total == n * slots,
                    e * slots + slots <= n * slots,
                    at == e * slots + row@.len(),
                    forall|s: int|
                        0 <= s < row@.len() ==> (#[trigger] row@[s]) == Some(
                            AgentKind::numbered(agent_kinds@[e * slots + s] as int),
                        ),
                decreases slots - row@.len(),
            {
                row.push(Some(AgentKind::from_i32(agent_kinds[at])));
                at += 1;
            }
            all.push(row);
        }
        self.opponents = all;
    }

    /// The built-in opponent that plays as player `slot + 1` of game `e`, if one
    /// does.
    pub fn opponent(&self, e: usize, slot: usize) -> (r: Option<AgentKind>)
        requires
            self.valid(),
            e < self.n,
            slot < self.num_agents - 1,
        ensures
            r == self.opponents@[e as int]@[slot as int],
    {
        assert(self.opponents@[e as int]@.len() == self.num_agents - 1);
        self.opponents[e][slot]
    }

    /// Starts all games anew: `envs[e]` is the game of `seeds[e]`. Seeds for
    /// games that start later follow the greatest one.
    pub fn reset(&mut self, seeds: Vec<u64>, envs: Vec<GameState>)
        requires
            old(self).valid(),
            seeds@.len() == old(self).n,
            envs@.len() == old(self).n,
            forall|e: int| 0 <= e < seeds@.len() ==> #[trigger] seeds@[e] < u64::MAX,
        ensures
            final(self).valid(),
            final(self).envs == envs,
            final(self).seeds == seeds,
            final(self).cfg == old(self).cfg,
            final(self).num_agents == old(self).num_agents,
            final(self).n == old(self).n,
            final(self).opponents == old(self).opponents,
            final(self).next_seed == top_seed(seeds@) + 1,
            forall|e: int| 0 <= e < seeds@.len() ==> #[trigger] seeds@[e] < final(self).next_seed,
            seeds@.len() > 0 ==> exists|e: int|
                0 <= e < seeds@.len() && #[trigger] seeds@[e] == final(self).next_seed - 1,
            forall|e: int| 0 <= e < final(self).n ==> #[trigger] final(self).cur_step@[e] == 0,
    {
        let mut top: u64 = 0;
        let mut i: usize = 0;
        assert(seeds@.take(0) =~= Seq::<u64>::empty());
        while i < seeds.len()
            invariant
                i <= seeds@.len(),
                forall|e: int| 0 <= e < seeds@.len() ==> #[trigger] seeds@[e] < u64::MAX,
                top < u64::MAX,
                top == top_seed(seeds@.take(i as int)),
            decreases seeds@.len() - i,
        {
            assert(seeds@[i as int] < u64::MAX);
            assert(seeds@.take(i + 1).drop_last() =~= seeds@.take(i as int));
            if seeds[i] > top {
                top = seeds[i];
            }
            i += 1;
        }
        proof {
            assert(seeds@.take(i as int) =~= seeds@);
            lemma_top_seed(seeds@);
        }
        let mut steps: Vec<i64> = Vec::new();
        let n: usize = self.n;
        while steps.len() < n
            invariant
                steps@.len() <= n,
                forall|e: int| 0 <= e < steps@.len() ==> #[trigger] steps@[e] == 0,
            decreases n - steps@.len(),
        {
            steps.push(0);
        }
        self.next_seed = top + 1;
        self.envs = envs;
        self.seeds = seeds;
        self.cur_step = steps;
    }

    /// Books the ends of a tick of all games: every game is a step further. Gives
    /// the rewards, one game after the other, and which games are over.
    pub fn book(&mut self, outs: &Vec<StepOutcome>) -> (r: (Vec<i32>, Vec<bool>))
        requires
            old(self).valid(),
            outs@.len() == old(self).n,
            forall|e: int| 0 <= e < old(self).n ==> #[trigger] old(self).cur_step@[e] < i64::MAX,
        ensures
            final(self).valid(),
            final(self).cur_step@ == advanced(old(self).cur_step@),
            final(self).envs == old(self).envs,
            final(self).cfg == old(self).cfg,
            final(self).seeds == old(self).seeds,
            final(self).num_agents == old(self).num_agents,
            final(self).n == old(self).n,
            final(self).next_seed == old(self).next_seed,
            final(self).opponents == old(self).opponents,
            r.0@ == reward_table(outs@, old(self).num_agents as nat),
            r.1@ == ended(outs@),
            r.0@.len() == old(self).n * old(self).num_agents,
            forall|e: int, i: int|
                0 <= e < old(self).n && 0 <= i < old(self).num_agents ==> (#[trigger] paid(
                    r.0@,
                    old(self).num_agents as nat,
                    e,
                    i,
                )) == (match outs@[e].rewards {
                    Some(w) => if i < w@.len() {
                        w@[i] as i32
                    } else {
                        0
                    },
                    None => 0,
                }),
            forall|e: int|
                0 <= e < old(self).n ==> (#[trigger] final(self).cur_step@[e]) == old(self).cur_step@[e] + 1,
    {
        let a: usize = self.num_agents;
        let n: usize = self.n;
        let mut rewards: Vec<i32> = Vec::new();
        let mut dones: Vec<bool> = Vec::new();
        let mut steps: Vec<i64> = Vec::new();
        let mut e: usize = 0;
        assert(outs@.take(0) =~= Seq::<StepOutcome>::empty());
        while e < n
            invariant
                e <= n,
                n == self.n,
                *self == *old(self),
                self.valid(),
                outs@.len() == n,
                forall|k: int| 0 <= k < n ==> #[trigger] self.cur_step@[k] < i64::MAX,
                rewards@ == reward_table(outs@.take(e as int), a as nat),
                dones@ =~= Seq::new(e as nat, |k: int| outs@[k].terminated),
                steps@ =~= advanced(self.cur_step@).take(e as int),
            decreases n - e,
        {
            let ghost start = rewards@;
            let out = &outs[e];
            assert(outs@.take(e + 1).drop_last() =~= outs@.take(e as int));
            let mut i: usize = 0;
            assert(start + reward_row(*out, a as nat).take(0) =~= start);
            while i < a
                invariant
                    i <= a,
                    rewards@ =~= start + reward_row(*out, a as nat).take(i as int),
                decreases a - i,
            {
                let v: i32 = match &out.rewards {
                    Some(r) => if i < r.len() {
                        #[verifier::truncate]
                        (r[i] as i32)
                    } else {
                        0
                    },
                    None => 0,
                };
                rewards.push(v);
                i += 1;
            }
            assert(reward_row(*out, a as nat).take(a as int) =~= reward_row(*out, a as nat));
            dones.push(out.terminated);
            assert(self.cur_step@[e as int] < i64::MAX);
            let next: i64 = self.cur_step[e] + 1;
            steps.push(next);
            e += 1;
        }
        assert(outs@.take(e as int) =~= outs@);
        assert(steps@ =~= advanced(self.cur_step@));
        proof {
            lemma_paid(outs@, a as nat);
            assert forall|k: int| 0 <= k < n implies (#[trigger] steps@[k]) == self.cur_step@[k] + 1 by {
                assert(self.cur_step@[k] < i64::MAX);
            }
        }
        self.cur_step = steps;
        (rewards, dones)
    }

    /// Gives the games that are over new seeds, which count on from the next one,
    /// and sets them back to their first step. Returns each such game with its
    /// seed; the caller puts the new games in their places.
    pub fn claim_seeds(&mut self, term: &Vec<bool>) -> (r: Vec<(usize, u64)>)
        requires
            old(self).valid(),
            old(self).envs@.len() == old(self).n,
            term@.len() == old(self).n,
            old(self).next_seed + over(term@, old(self).n as nat) <= u64::MAX,
        ensures
            final(self).valid(),
            final(self).envs == old(self).envs,
            final(self).cfg == old(self).cfg,
            final(self).num_agents == old(self).num_agents,
            final(self).n == old(self).n,
            final(self).opponents == old(self).opponents,
            r@ == restarts(term@, old(self).next_seed as int, old(self).n as nat),
            final(self).next_seed == old(self).next_seed + over(term@, old(self).n as nat),
            forall|e: int|
                0 <= e < old(self).n ==> (#[trigger] final(self).seeds@[e]) == (if term@[e] {
                    (old(self).next_seed + over(term@, e as nat)) as u64
                } else {
                    old(self).seeds@[e]
                }),
            forall|e: int|
                0 <= e < old(self).n ==> (#[trigger] final(self).cur_step@[e]) == (if term@[e] {
                    0
                } else {
                    old(self).cur_step@[e]
                }),
    {
        let n: usize = self.n;
        let ghost next0 = self.next_seed as int;
        let ghost seeds0 = self.seeds@;
        let ghost steps0 = self.cur_step@;
        let mut r: Vec<(usize, u64)> = Vec::new();
        let mut e: usize = 0;
        while e < n
            invariant
                e <= n,
                n == self.n,
                self.valid(),
                self.envs == old(self).envs,
                self.envs@.len() == n,
                self.cfg == old(self).cfg,
                self.num_agents == old(self).num_agents,
                self.n == old(self).n,
                self.opponents == old(self).opponents,
                term@.len() == n,
                next0 == old(self).next_seed,
                next0 + over(term@, n as nat) <= u64::MAX,
                seeds0 == old(self).seeds@,
                steps0 == old(self).cur_step@,
                seeds0.len() == n,
                steps0.len() == n,
                self.seeds@.len() == n,
                self.cur_step@.len() == n,
                r@ == restarts(term@, next0, e as nat),
                r@.len() == over(term@, e as nat),
                self.next_seed == next0 + over(term@, e as nat),
                forall|k: int|
                    0 <= k < e ==> (#[trigger] self.seeds@[k]) == (if term@[k] {
                        (next0 + over(term@, k as nat)) as u64
                    } else {
                        seeds0[k]
                    }),
                forall|k: int| e <= k < n ==> (#[trigger] self.seeds@[k]) == seeds0[k],
                forall|k: int|
                    0 <= k < e ==> (#[trigger] self.cur_step@[k]) == (if term@[k] {
                        0
                    } else {
                        steps0[k]
                    }),
                forall|k: int| e <= k < n ==> (#[trigger] self.cur_step@[k]) == steps0[k],
            decreases n - e,
        {
            proof {
                lemma_over(term@, (e + 1) as nat, n as nat);
            }
            if term[e] {
                let seed: u64 = self.next_seed;
                self.next_seed = seed + 1;
                self.cur_step[e] = 0;
                self.seeds[e] = seed;
                r.push((e, seed));
                assert(forall|k: int| 0 <= k < n ==> #[trigger] self.seeds@[k] < self.next_seed);
            }
            e += 1;
        }
        r
    }

    /// Ends a tick of all games: books the rewards, and gives the games that are over
    /// new seeds. Returns the rewards, one game after the other, which games are
    /// over, and each of these with its seed; the caller puts the new games in their
    /// places.
    pub fn end_tick(&mut self, outs: &Vec<StepOutcome>) -> (r: (Vec<i32>, Vec<bool>, Vec<(usize, u64)>))
        requires
            old(self).valid(),
            old(self).envs@.len() == old(self).n,
            outs@.len() == old(self).n,
            forall|e: int| 0 <= e < old(self).n ==> #[trigger] old(self).cur_step@[e] < i64::MAX,
            old(self).next_seed + over(ended(outs@), outs@.len()) <= u64::MAX,
        ensures
            final(self).valid(),
            final(self).envs == old(self).envs,
            final(self).cfg == old(self).cfg,
            final(self).num_agents == old(self).num_agents,
            final(self).n == old(self).n,
            final(self).opponents == old(self).opponents,
            r.0@ == reward_table(outs@, old(self).num_agents as nat),
            r.1@ == ended(outs@),
            r.2@ == restarts(ended(outs@), old(self).next_seed as int, outs@.len()),
            final(self).next_seed == old(self).next_seed + over(ended(outs@), outs@.len()),
            forall|e: int|
                0 <= e < old(self).n ==> (#[trigger] final(self).seeds@[e]) == (if outs@[e].terminated {
                    (old(self).next_seed + over(ended(outs@), e as nat)) as u64
                } else {
                    old(self).seeds@[e]
                }),
            forall|e: int|
                0 <= e < old(self).n ==> (#[trigger] final(self).cur_step@[e]) == (if outs@[e].terminated {
                    0
                } else {
                    old(self).cur_step@[e] + 1
                }),
    {
        let (rewards, term) = self.book(outs);
        let fresh = self.claim_seeds(&term);
        (rewards, term, fresh)
    }

    /// Puts a new game in place `e`.
    pub fn put(&mut self, e: usize, state: GameState)
        requires
            old(self).valid(),
            e < old(self).envs@.len(),
        ensures
            final(self).valid(),
            final(self).envs@ == old(self).envs@.update(e as int, state),
            final(self).cfg == old(self).cfg,
            final(self).seeds == old(self).seeds,
            final(self).cur_step == old(self).cur_step,
            final(self).num_agents == old(self).num_agents,
            final(self).n == old(self).n,
            final(self).next_seed == old(self).next_seed,
            final(self).opponents == old(self).opponents,
    {
        self.envs[e] = state;
    }

    pub fn num_envs(&self) -> (r: usize)
        ensures
            r == self.n,
    {
        self.n
    }

    pub fn num_agents(&self) -> (r: usize)
        ensures
            r == self.num_agents,
    {
        self.num_agents
    }

    pub fn obs_dim(&self) -> (r: usize)
        ensures
            r == OBS_DIM,
            r == 1378,
    {
        OBS_DIM
    }
}

/// Of more games, no fewer are over.
pub proof fn lemma_over(term: Seq<bool>, i: nat, n: nat)
    requires
        i <= n,
    ensures
        over(term, i) <= over(term, n) <= n,
    decreases n,
{
    if i < n {
        lemma_over(term, i, (n - 1) as nat);
    } else if n > 0 {
        lemma_over(term, (n - 1) as nat, (n - 1) as nat);
    }
}

/// The games that start anew are those that are over, in their order, each once; the
/// first gets the next seed, and each further one the seed after.
pub proof fn lemma_restarts(term: Seq<bool>, next: int, n: nat)
    requires
        n <= term.len(),
        n <= usize::MAX,
        0 <= next,
        next + over(term, n) <= u64::MAX + 1,
    ensures
        restarts(term, next, n).len() == over(term, n),
        forall|i: int|
            0 <= i < restarts(term, next, n).len() ==> (#[trigger] restarts(term, next, n)[i]).0 < n
                && term[restarts(term, next, n)[i].0 as int] && restarts(term, next, n)[i].1 == next + i,
        forall|i: int, j: int|
            0 <= i < j < restarts(term, next, n).len() ==> (#[trigger] restarts(term, next, n)[i]).0 < (
            #[trigger] restarts(term, next, n)[j]).0,
        forall|e: int| 0 <= e < n && term[e] ==> #[trigger] is_restarted(restarts(term, next, n), e),
    decreases n,
{
    if n > 0 {
        lemma_over(term, (n - 1) as nat, n);
        lemma_restarts(term, next, (n - 1) as nat);
        let front = restarts(term, next, (n - 1) as nat);
        let all = restarts(term, next, n);
        assert forall|i: int| 0 <= i < front.len() implies #[trigger] all[i] == front[i] by {}
        assert forall|e: int| 0 <= e < n && term[e] implies #[trigger] is_restarted(all, e) by {
            if e < n - 1 {
                assert(is_restarted(front, e));
                let i = choose|i: int| 0 <= i < front.len() && (#[trigger] front[i]).0 == e;
                assert(all[i].0 == e);
            } else {
                assert(all[front.len() as int].0 == e);
            }
        }
    }
}

/// Whether game `e` is among those that start anew.
pub open spec fn is_restarted(r: Seq<(usize, u64)>, e: int) -> bool {
    exists|i: int| 0 <= i < r.len() && (#[trigger] r[i]).0 == e
}

/// The seeds that the games which start anew get, tick after tick: `terms[t]` says
/// which of `n` games tick `t` ends, and `next` is the seed after those in use.
pub open spec fn dealt(terms: Seq<Seq<bool>>, next: int, n: nat) -> Seq<u64>
    decreases terms.len(),
{
    if terms.len() == 0 {
        Seq::empty()
    } else {
        let front = dealt(terms.drop_last(), next, n);
        let last = restarts(terms.last(), next + front.len(), n);
        front + Seq::new(last.len(), |i: int| last[i].1)
    }
}

/// After a reset, the games that start anew take the seeds past the greatest one
/// given to it, one after the other, over however many ticks: none is left out and
/// none is used again.
pub proof fn lemma_dealt(seeds: Seq<u64>, terms: Seq<Seq<bool>>, n: nat)
    requires
        n <= usize::MAX,
        forall|t: int| 0 <= t < terms.len() ==> (#[trigger] terms[t]).len() == n,
        top_seed(seeds) + 1 + dealt(terms, top_seed(seeds) + 1, n).len() <= u64::MAX,
    ensures
        forall|k: int|
            0 <= k < dealt(terms, top_seed(seeds) + 1, n).len() ==> (#[trigger] dealt(
                terms,
                top_seed(seeds) + 1,
                n,
            )[k]) == top_seed(seeds) + 1 + k,
        forall|e: int, k: int|
            0 <= e < seeds.len() && 0 <= k < dealt(terms, top_seed(seeds) + 1, n).len() ==> (#[trigger] seeds[e]) < (
            #[trigger] dealt(terms, top_seed(seeds) + 1, n)[k]),
    decreases terms.len(),
{
    let next = top_seed(seeds) + 1;
    lemma_top_seed(seeds);
    if terms.len() > 0 {
        let before = terms.drop_last();
        let front = dealt(before, next, n);
        let last = restarts(terms.last(), next + front.len(), n);
        assert forall|t: int| 0 <= t < before.len() implies (#[trigger] before[t]).len() == n by {
            assert(before[t] == terms[t]);
        }
        assert(terms[terms.len() - 1].len() == n);
        lemma_dealt(seeds, before, n);
        lemma_restarts_len(terms.last(), next + front.len(), n);
        lemma_restarts(terms.last(), next + front.len(), n);
        let all = dealt(terms, next, n);
        assert forall|k: int| 0 <= k < all.len() implies (#[trigger] all[k]) == next + k by {
            if k < front.len() {
                assert(all[k] == front[k]);
            } else {
                assert(all[k] == last[k - front.len()].1);
            }
        }
    }
}

proof fn lemma_restarts_len(term: Seq<bool>, next: int, n: nat)
    ensures
        restarts(term, next, n).len() == over(term, n),
    decreases n,
{
    if n > 0 {
        lemma_restarts_len(term, next, (n - 1) as nat);
    }
}

/// The seed that follows those in use at tick `t` is as many past the first as games
/// have started anew before.
pub proof fn lemma_next_seeds(nexts: Seq<int>, terms: Seq<Seq<bool>>, n: nat, t: nat)
    requires
        nexts.len() == terms.len() + 1,
        t <= terms.len(),
        forall|i: int| 0 <= i < terms.len() ==> nexts[i + 1] == nexts[i] + over(#[trigger] terms[i], n),
    ensures
        nexts[t as int] == nexts[0] + dealt(terms.take(t as int), nexts[0], n).len(),
    decreases t,
{
    if t > 0 {
        lemma_next_seeds(nexts, terms, n, (t - 1) as nat);
        let part = terms.take(t as int);
        assert(part.drop_last() =~= terms.take(t - 1));
        assert(part.last() == terms[t - 1]);
        let front = dealt(part.drop_last(), nexts[0], n);
        lemma_restarts_len(terms[t - 1], nexts[0] + front.len(), n);
    }
}

/// The rewards of each game stand in a row of their own.
pub proof fn lemma_reward_table(outs: Seq<StepOutcome>, a: nat, e: int, i: int)
    requires
        0 <= e < outs.len(),
        0 <= i < a,
    ensures
        reward_table(outs, a).len() == outs.len() * a,
        reward_table(outs, a)[e * a + i] == reward_in(outs[e], i),
    decreases outs.len(),
{
    let front = outs.drop_last();
    let n = front.len() as int;
    assert(outs.len() * a == n * a + a) by (nonlinear_arith)
        requires
            outs.len() == n + 1,
    ;
    if n == 0 {
        assert(reward_table(front, a).len() == 0);
        assert(0 * a == 0);
    } else if e < n {
        lemma_reward_table(front, a, e, i);
        assert(0 <= e * a + i < n * a) by (nonlinear_arith)
            requires
                0 <= e < n,
                0 <= i < a,
        ;
    } else {
        lemma_reward_table(front, a, 0, i);
    }
}

} // verus!
