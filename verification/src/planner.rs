//! The planner of the producer agent: its settings, which launches to weigh, and
//! which of them to make.
//!
//! Distances, angles and flights come from the caller.

use crate::double::Double;
use crate::flow::{capture_floor, safe_drain_planet, score_launch, GarrisonStatus};
use crate::garrison::fleet_eta;
use crate::ranking::{best_of, Ranked};
use crate::state::{has_id, GameState, Move, Planet};
use crate::tick::FleetMove;
use vstd::prelude::*;

verus! {

use crate::state::GameModel;

/// The settings of the planner.
#[derive(Clone, Copy, PartialEq, Eq, Structural, Debug)]
pub struct ProducerLiteConfig {
    pub horizon: usize,
    pub max_sources_per_lane: usize,
    pub max_offensive_targets: usize,
    pub max_defensive_targets: usize,
    pub max_waves_per_turn: usize,
    pub roi_threshold: Double,
    pub min_ships_to_launch: Double,
    pub reinforce_size_beta: Double,
    pub reinforce_eta_free: Double,
    pub reinforce_eta_scale: Double,
    pub enable_regroup: bool,
    pub max_regroup_time: Double,
    pub regroup_pressure_delta_min: Double,
    pub max_regroup_sources_per_lane: usize,
    pub max_regroup_targets_per_source: usize,
    pub regroup_time_penalty_weight: Double,
}

/// The settings that the planner starts from: a score above 1.5, launches of 4.0
/// ships or more, 2.2, 3.0 and 12.0 for reinforcements, and for regrouping 7.0
/// steps at most, a pressure that is higher by 0.25, and a weight of 0.001 for each
/// step.
pub open spec fn default_settings() -> ProducerLiteConfig {
    ProducerLiteConfig {
        horizon: crate::flow::HORIZON,
        max_sources_per_lane: 12,
        max_offensive_targets: 12,
        max_defensive_targets: 4,
        max_waves_per_turn: 6,
        roi_threshold: Double { bits: 0x3ff8_0000_0000_0000 },
        min_ships_to_launch: Double { bits: 0x4010_0000_0000_0000 },
        reinforce_size_beta: Double { bits: 0x4001_9999_9999_999a },
        reinforce_eta_free: Double { bits: 0x4008_0000_0000_0000 },
        reinforce_eta_scale: Double { bits: 0x4028_0000_0000_0000 },
        enable_regroup: true,
        max_regroup_time: Double { bits: 0x401c_0000_0000_0000 },
        regroup_pressure_delta_min: Double { bits: 0x3fd0_0000_0000_0000 },
        max_regroup_sources_per_lane: 6,
        max_regroup_targets_per_source: 7,
        regroup_time_penalty_weight: Double { bits: 0x3f50_624d_d2f1_a9fc },
    }
}

impl Default for ProducerLiteConfig {
    fn default() -> (c: ProducerLiteConfig)
        ensures
            c == default_settings(),
            c.horizon == 18,
            c.max_sources_per_lane == 12,
            c.max_offensive_targets == 12,
            c.max_defensive_targets == 4,
            c.max_waves_per_turn == 6,
            c.enable_regroup,
            c.max_regroup_sources_per_lane == 6,
            c.max_regroup_targets_per_source == 7,
    {
        ProducerLiteConfig {
            horizon: crate::flow::HORIZON,
            max_sources_per_lane: 12,
            max_offensive_targets: 12,
            max_defensive_targets: 4,
            max_waves_per_turn: 6,
            roi_threshold: Double { bits: 0x3ff8_0000_0000_0000 },
            min_ships_to_launch: Double { bits: 0x4010_0000_0000_0000 },
            reinforce_size_beta: Double { bits: 0x4001_9999_9999_999a },
            reinforce_eta_free: Double { bits: 0x4008_0000_0000_0000 },
            reinforce_eta_scale: Double { bits: 0x4028_0000_0000_0000 },
            enable_regroup: true,
            max_regroup_time: Double { bits: 0x401c_0000_0000_0000 },
            regroup_pressure_delta_min: Double { bits: 0x3fd0_0000_0000_0000 },
            max_regroup_sources_per_lane: 6,
            max_regroup_targets_per_source: 7,
            regroup_time_penalty_weight: Double { bits: 0x3f50_624d_d2f1_a9fc },
        }
    }
}

impl ProducerLiteConfig {
    /// The settings for a game of `players`: with four or more, the planner
    /// looks at less, and regroups within 6.0 steps.
    pub open spec fn adjusted(self, players: nat) -> ProducerLiteConfig {
        if players >= 4 {
            ProducerLiteConfig {
                horizon: 13,
                max_sources_per_lane: 6,
                max_defensive_targets: 2,
                max_regroup_time: Double { bits: 0x4018_0000_0000_0000 },
                max_regroup_targets_per_source: 8,
                ..self
            }
        } else {
            self
        }
    }

    pub fn for_players(&self, players: usize) -> (c: ProducerLiteConfig)
        ensures
            c == self.adjusted(players as nat),
            players < 4 ==> c == *self,
            players >= 4 ==> c.horizon == 13 && c.max_sources_per_lane == 6 && c.max_defensive_targets == 2
                && c.max_regroup_targets_per_source == 8 && c.max_regroup_time.bits == 0x4018_0000_0000_0000,
            players >= 4 ==> c == (ProducerLiteConfig {
                horizon: c.horizon,
                max_sources_per_lane: c.max_sources_per_lane,
                max_defensive_targets: c.max_defensive_targets,
                max_regroup_targets_per_source: c.max_regroup_targets_per_source,
                max_regroup_time: c.max_regroup_time,
                ..*self
            }),
    {
        if players >= 4 {
            ProducerLiteConfig {
                horizon: 13,
                max_sources_per_lane: 6,
                max_defensive_targets: 2,
                max_regroup_time: Double { bits: 0x4018_0000_0000_0000 },
                max_regroup_targets_per_source: 8,
                ..*self
            }
        } else {
            *self
        }
    }
}

/// `n` is the number of players: at least two, and just enough for every owner
/// of a planet or fleet.
pub open spec fn seats(g: GameModel, n: int) -> bool {
    &&& n >= 2
    &&& forall|i: int| 0 <= i < g.planets.len() ==> (#[trigger] g.planets[i]).owner < n
    &&& forall|i: int| 0 <= i < g.fleets.len() ==> (#[trigger] g.fleets[i]).owner < n
    &&& n > 2 ==> (exists|i: int| 0 <= i < g.planets.len() && (#[trigger] g.planets[i]).owner == n - 1) || (exists|
        i: int,
    |
        0 <= i < g.fleets.len() && (#[trigger] g.fleets[i]).owner == n - 1)
}

/// How many players the game has, as far as its planets and fleets show.
pub fn player_count(g: &GameState) -> (n: i64)
    requires
        forall|i: int| 0 <= i < g@.planets.len() ==> (#[trigger] g@.planets[i]).owner < i64::MAX,
        forall|i: int| 0 <= i < g@.fleets.len() ==> (#[trigger] g@.fleets[i]).owner < i64::MAX,
    ensures
        seats(g@, n as int),
        n >= 2,
        forall|i: int| 0 <= i < g@.planets.len() ==> (#[trigger] g@.planets[i]).owner < n,
        forall|i: int| 0 <= i < g@.fleets.len() ==> (#[trigger] g@.fleets[i]).owner < n,
        (forall|i: int| 0 <= i < g@.planets.len() ==> (#[trigger] g@.planets[i]).owner < n - 1) && (forall|i: int|
            0 <= i < g@.fleets.len() ==> (#[trigger] g@.fleets[i]).owner < n - 1) ==> n == 2,
{
    let mut n: i64 = 2;
    let mut i: usize = 0;
    while i < g.planets.len()
        invariant
            i <= g.planets@.len(),
            forall|k: int| 0 <= k < g@.planets.len() ==> (#[trigger] g@.planets[k]).owner < i64::MAX,
            n >= 2,
            forall|k: int| 0 <= k < i ==> (#[trigger] g@.planets[k]).owner < n,
            n > 2 ==> exists|k: int| 0 <= k < g@.planets.len() && (#[trigger] g@.planets[k]).owner == n - 1,
        decreases g.planets@.len() - i,
    {
        let o: i64 = g.planets[i].owner;
        assert(g@.planets[i as int].owner == o);
        if o >= n {
            n = o + 1;
        }
        i += 1;
    }
    let mut j: usize = 0;
    while j < g.fleets.len()
        invariant
            j <= g.fleets@.len(),
            forall|k: int| 0 <= k < g@.fleets.len() ==> (#[trigger] g@.fleets[k]).owner < i64::MAX,
            n >= 2,
            forall|k: int| 0 <= k < g@.planets.len() ==> (#[trigger] g@.planets[k]).owner < n,
            forall|k: int| 0 <= k < j ==> (#[trigger] g@.fleets[k]).owner < n,
            n > 2 ==> (exists|k: int| 0 <= k < g@.planets.len() && (#[trigger] g@.planets[k]).owner == n - 1) || (
            exists|k: int| 0 <= k < g@.fleets.len() && (#[trigger] g@.fleets[k]).owner == n - 1),
        decreases g.fleets@.len() - j,
    {
        let o: i64 = g.fleets[j].owner;
        assert(g@.fleets[j as int].owner == o);
        if o >= n {
            n = o + 1;
        }
        j += 1;
    }
    n
}

/// The places of the planets that `player` holds.
pub open spec fn held(planets: Seq<Planet>, player: i64) -> Seq<usize>
    decreases planets.len(),
{
    if planets.len() == 0 {
        Seq::empty()
    } else {
        let front = held(planets.drop_last(), player);
        if planets.last().owner == player {
            front.push((planets.len() - 1) as usize)
        } else {
            front
        }
    }
}

/// The places of the planets that `player` holds.
pub fn owned(g: &GameState, player: i64) -> (r: Vec<usize>)
    ensures
        r@ == held(g@.planets, player),
        forall|k: int|
            0 <= k < r@.len() ==> (#[trigger] r@[k]) < g@.planets.len() && g@.planets[r@[k] as int].owner == player,
        forall|j: int, k: int| 0 <= j < k < r@.len() ==> #[trigger] r@[j] < #[trigger] r@[k],
        forall|i: int|
            0 <= i < g@.planets.len() && (#[trigger] g@.planets[i]).owner == player ==> r@.contains(i as usize),
{
    let mut r: Vec<usize> = Vec::new();
    let mut i: usize = 0;
    let n: usize = g.planets.len();
    proof {
        lemma_held(g@.planets, player);
        lemma_held_all(g@.planets, player);
    }
    assert(g@.planets.take(0) =~= Seq::<Planet>::empty());
    while i < n
        invariant
            i <= n,
            n == g.planets@.len(),
            r@ == held(g@.planets.take(i as int), player),
        decreases g.planets@.len() - i,
    {
        assert(g@.planets.take(i + 1).drop_last() =~= g@.planets.take(i as int));
        if g.planets[i].owner == player {
            r.push(i);
        }
        i += 1;
    }
    assert(g@.planets.take(i as int) =~= g@.planets);
    r
}

/// What is listed as held is held, and in the order of the planets.
pub proof fn lemma_held(planets: Seq<Planet>, player: i64)
    requires
        planets.len() <= usize::MAX,
    ensures
        forall|k: int|
            0 <= k < held(planets, player).len() ==> (#[trigger] held(planets, player)[k]) < planets.len()
                && planets[held(planets, player)[k] as int].owner == player,
        forall|j: int, k: int|
            0 <= j < k < held(planets, player).len() ==> #[trigger] held(planets, player)[j] < #[trigger] held(
                planets,
                player,
            )[k],
        held(planets, player).len() <= planets.len(),
    decreases planets.len(),
{
    if planets.len() > 0 {
        let front = planets.drop_last();
        lemma_held(front, player);
        let h = held(front, player);
        let all = held(planets, player);
        assert forall|k: int| 0 <= k < all.len() implies (#[trigger] all[k]) < planets.len() && planets[all[k] as int].owner
            == player by {
            if k < h.len() {
                assert(all[k] == h[k]);
                assert(front[h[k] as int] == planets[h[k] as int]);
            }
        }
        assert forall|j: int, k: int| 0 <= j < k < all.len() implies #[trigger] all[j] < #[trigger] all[k] by {
            assert(all[j] == h[j]);
            if k < h.len() {
                assert(all[k] == h[k]);
            }
        }
    }
}

/// Every planet that `player` holds is listed.
pub proof fn lemma_held_all(planets: Seq<Planet>, player: i64)
    requires
        planets.len() <= usize::MAX,
    ensures
        forall|i: int|
            0 <= i < planets.len() && (#[trigger] planets[i]).owner == player ==> held(planets, player).contains(
                i as usize,
            ),
    decreases planets.len(),
{
    if planets.len() > 0 {
        let front = planets.drop_last();
        lemma_held_all(front, player);
        let h = held(front, player);
        let all = held(planets, player);
        assert forall|i: int| 0 <= i < planets.len() && (#[trigger] planets[i]).owner == player implies all.contains(
            i as usize,
        ) by {
            if i < front.len() {
                assert(front[i] == planets[i]);
                let k = choose|k: int| 0 <= k < h.len() && h[k] == i as usize;
                assert(all[k] == i as usize);
            } else {
                assert(all[h.len() as int] == i as usize);
            }
        }
    }
}

/// The planets that can be attacked, nearest first: those that `player` does
/// not hold and that are no comets.
pub open spec fn attackable(g: GameModel, player: i64, distances: Seq<Double>, n: nat) -> Seq<Ranked>
    decreases n,
{
    if n == 0 {
        Seq::empty()
    } else {
        let front = attackable(g, player, distances, (n - 1) as nat);
        let p = g.planets[n - 1];
        if p.owner != player && !g.comet_planet_ids.contains(p.id) {
            front.push(Ranked { key: -distances[n - 1].rank() as i128, idx: (n - 1) as usize })
        } else {
            front
        }
    }
}

/// The `max` nearest planets that can be attacked. `distances[i]` is the
/// distance of planet `i` from the sources; equally near ones go by their place.
pub fn offensive_targets(g: &GameState, player: i64, distances: &Vec<Double>, max: usize) -> (r: Vec<usize>)
    requires
        distances@.len() == g@.planets.len(),
    ensures
        r@ == crate::ranking::best(attackable(g@, player, distances@, g@.planets.len()), max as nat),
        forall|k: int| 0 <= k < r@.len() ==> (#[trigger] r@[k]) < g@.planets.len(),
        r@.len() <= max,
        forall|k: int|
            0 <= k < r@.len() ==> g@.planets[(#[trigger] r@[k]) as int].owner != player
                && !g@.comet_planet_ids.contains(g@.planets[r@[k] as int].id),
        forall|i: int|
            0 <= i < g@.planets.len() && (#[trigger] g@.planets[i]).owner != player && !g@.comet_planet_ids.contains(
                g@.planets[i].id,
            ) ==> r@.len() == max || r@.contains(i as usize),
        forall|i: int, j: int|
            0 <= i < g@.planets.len() && 0 <= j < g@.planets.len() && is_attackable(g@, player, i) && is_attackable(
                g@,
                player,
                j,
            ) && #[trigger] distances@[i].below(#[trigger] distances@[j]) ==> crate::ranking::leads(
                r@,
                i as usize,
                j as usize,
            ),
{
    let mut items: Vec<Ranked> = Vec::new();
    let mut i: usize = 0;
    while i < g.planets.len()
        invariant
            i <= g.planets@.len(),
            distances@.len() == g@.planets.len(),
            items@ == attackable(g@, player, distances@, i as nat),
            forall|k: int| 0 <= k < items@.len() ==> (#[trigger] items@[k]).idx < g@.planets.len(),
        decreases g.planets@.len() - i,
    {
        let p = g.planets[i];
        if p.owner != player && !has_id(&g.comet_planet_ids, p.id) {
            let o: i64 = distances[i].order();
            items.push(Ranked { key: -(o as i128), idx: i });
        }
        i += 1;
    }
    proof {
        lemma_attackable(g@, player, distances@, g@.planets.len());
        lemma_offensive(g@, player, distances@, max as nat);
    }
    best_of(&items, max)
}

/// No planet to attack is listed twice.
pub proof fn lemma_offensive_once(g: GameModel, player: i64, distances: Seq<Double>, max: nat)
    requires
        g.planets.len() <= usize::MAX,
    ensures
        ({
            let r = crate::ranking::best(attackable(g, player, distances, g.planets.len()), max);
            forall|i: int, j: int| 0 <= i < j < r.len() ==> #[trigger] r[i] != #[trigger] r[j]
        }),
{
    lemma_attackable(g, player, distances, g.planets.len());
    crate::ranking::lemma_best_apart(attackable(g, player, distances, g.planets.len()), max);
}

/// Somebody else or nobody holds planet `i`, and it is no comet.
pub open spec fn is_attackable(g: GameModel, player: i64, i: int) -> bool {
    g.planets[i].owner != player && !g.comet_planet_ids.contains(g.planets[i].id)
}

proof fn lemma_attackable(g: GameModel, player: i64, distances: Seq<Double>, n: nat)
    requires
        n <= g.planets.len(),
        g.planets.len() <= usize::MAX,
    ensures
        crate::ranking::apart(attackable(g, player, distances, n)),
        forall|k: int|
            0 <= k < attackable(g, player, distances, n).len() ==> (#[trigger] attackable(g, player, distances, n)[k]).idx
                < n && is_attackable(g, player, attackable(g, player, distances, n)[k].idx as int)
                && attackable(g, player, distances, n)[k].key
                == -distances[attackable(g, player, distances, n)[k].idx as int].rank(),
        forall|i: int|
            0 <= i < n && #[trigger] is_attackable(g, player, i) ==> crate::ranking::listed(
                attackable(g, player, distances, n),
                i as usize,
            ),
    decreases n,
{
    if n > 0 {
        lemma_attackable(g, player, distances, (n - 1) as nat);
        let front = attackable(g, player, distances, (n - 1) as nat);
        let all = attackable(g, player, distances, n);
        assert forall|k: int| 0 <= k < all.len() implies (#[trigger] all[k]).idx < n && is_attackable(
            g,
            player,
            all[k].idx as int,
        ) && all[k].key == -distances[all[k].idx as int].rank() by {
            if k < front.len() {
                assert(all[k] == front[k]);
            }
        }
        assert forall|i: int, j: int| 0 <= i < j < all.len() implies (#[trigger] all[i]).idx != (
        #[trigger] all[j]).idx by {
            assert(all[i] == front[i]);
            if j < front.len() {
                assert(all[j] == front[j]);
            }
        }
        assert forall|i: int| 0 <= i < n && #[trigger] is_attackable(g, player, i) implies crate::ranking::listed(
            all,
            i as usize,
        ) by {
            if i < n - 1 {
                let k = choose|k: int| 0 <= k < front.len() && (#[trigger] front[k]).idx == i as usize;
                assert(all[k].idx == i as usize);
            } else {
                assert(all[front.len() as int].idx == i as usize);
            }
        }
    }
}

/// The targets to attack are planets that `player` does not hold and that are no
/// comets. All of these are listed where there is room, and the nearer one always
/// stands before the one farther away; of two that are as near, the one whose place
/// comes first.
pub proof fn lemma_offensive(g: GameModel, player: i64, distances: Seq<Double>, max: nat)
    requires
        g.planets.len() <= usize::MAX,
    ensures
        ({
            let r = crate::ranking::best(attackable(g, player, distances, g.planets.len()), max);
            &&& r.len() <= max
            &&& forall|k: int|
                0 <= k < r.len() ==> (#[trigger] r[k]) < g.planets.len() && g.planets[r[k] as int].owner != player
                    && !g.comet_planet_ids.contains(g.planets[r[k] as int].id)
            &&& forall|i: int|
                0 <= i < g.planets.len() && (#[trigger] g.planets[i]).owner != player && !g.comet_planet_ids.contains(
                    g.planets[i].id,
                ) ==> r.len() == max || r.contains(i as usize)
            &&& forall|i: int, j: int|
                0 <= i < g.planets.len() && 0 <= j < g.planets.len() && is_attackable(g, player, i) && is_attackable(
                    g,
                    player,
                    j,
                ) && #[trigger] distances[i].below(#[trigger] distances[j]) ==> crate::ranking::leads(
                    r,
                    i as usize,
                    j as usize,
                )
            &&& forall|i: int, j: int|
                0 <= i < j < g.planets.len() && #[trigger] is_attackable(g, player, i) && #[trigger] is_attackable(
                    g,
                    player,
                    j,
                ) && distances[i] == distances[j] ==> crate::ranking::leads(r, i as usize, j as usize)
        }),
{
    let n = g.planets.len();
    let items = attackable(g, player, distances, n);
    let r = crate::ranking::best(items, max);
    lemma_attackable(g, player, distances, n);
    crate::ranking::lemma_best(items, max);
    crate::ranking::lemma_best_all(items, max);
    assert forall|k: int| 0 <= k < r.len() implies (#[trigger] r[k]) < g.planets.len() && g.planets[r[k] as int].owner
        != player && !g.comet_planet_ids.contains(g.planets[r[k] as int].id) by {
        assert(crate::ranking::listed(items, r[k]));
        let j = choose|j: int| 0 <= j < items.len() && (#[trigger] items[j]).idx == r[k];
        assert(is_attackable(g, player, items[j].idx as int));
    }
    assert forall|i: int|
        0 <= i < g.planets.len() && (#[trigger] g.planets[i]).owner != player && !g.comet_planet_ids.contains(
            g.planets[i].id,
        ) implies r.len() == max || r.contains(i as usize) by {
        assert(is_attackable(g, player, i));
        assert(crate::ranking::listed(items, i as usize));
        let j = choose|j: int| 0 <= j < items.len() && (#[trigger] items[j]).idx == i as usize;
    }
    assert forall|i: int, j: int|
        0 <= i < n && 0 <= j < n && #[trigger] is_attackable(g, player, i) && #[trigger] is_attackable(g, player, j) && (
        distances[i].below(distances[j]) || (distances[i] == distances[j] && i < j)) implies crate::ranking::leads(
        r,
        i as usize,
        j as usize,
    ) by {
        assert(crate::ranking::listed(items, i as usize));
        assert(crate::ranking::listed(items, j as usize));
        let a = choose|a: int| 0 <= a < items.len() && (#[trigger] items[a]).idx == i as usize;
        let b = choose|b: int| 0 <= b < items.len() && (#[trigger] items[b]).idx == j as usize;
        crate::ranking::lemma_best_order(items, max, a, b);
    }
}

/// The places among `own` of planets with at least `min` ships.
pub open spec fn ready(planets: Seq<Planet>, own: Seq<usize>, min: i64) -> Seq<usize>
    decreases own.len(),
{
    if own.len() == 0 {
        Seq::empty()
    } else {
        let front = ready(planets, own.drop_last(), min);
        if planets[own.last() as int].ships >= min {
            front.push(own.last())
        } else {
            front
        }
    }
}

/// The places of the planets from which `player` can launch: distances are
/// measured from these.
pub fn ready_sources(g: &GameState, player: i64, min: i64) -> (r: Vec<usize>)
    ensures
        r@ == ready(g@.planets, held(g@.planets, player), min),
        forall|i: usize|
            #[trigger] r@.contains(i) <==> i < g@.planets.len() && g@.planets[i as int].owner == player
                && g@.planets[i as int].ships >= min,
        forall|j: int, k: int| 0 <= j < k < r@.len() ==> #[trigger] r@[j] < #[trigger] r@[k],
{
    let own = owned(g, player);
    let mut r: Vec<usize> = Vec::new();
    let mut i: usize = 0;
    assert(own@.take(0) =~= Seq::<usize>::empty());
    while i < own.len()
        invariant
            i <= own@.len(),
            own@ == held(g@.planets, player),
            forall|k: int| 0 <= k < own@.len() ==> (#[trigger] own@[k]) < g@.planets.len(),
            r@ == ready(g@.planets, own@.take(i as int), min),
        decreases own@.len() - i,
    {
        assert(own@.take(i + 1).drop_last() =~= own@.take(i as int));
        assert(own@[i as int] < g@.planets.len());
        if g.planets[own[i]].ships >= min {
            r.push(own[i]);
        }
        i += 1;
    }
    assert(own@.take(i as int) =~= own@);
    proof {
        assert(g@.planets.len() == g.planets.len());
        lemma_ready_sources(g@.planets, player, min);
    }
    r
}

proof fn lemma_ready(planets: Seq<Planet>, own: Seq<usize>, min: i64)
    requires
        forall|j: int, k: int| 0 <= j < k < own.len() ==> #[trigger] own[j] < #[trigger] own[k],
    ensures
        forall|i: usize|
            #[trigger] ready(planets, own, min).contains(i) <==> own.contains(i) && planets[i as int].ships >= min,
        forall|j: int, k: int|
            0 <= j < k < ready(planets, own, min).len() ==> #[trigger] ready(planets, own, min)[j] < #[trigger] ready(
                planets,
                own,
                min,
            )[k],
    decreases own.len(),
{
    if own.len() > 0 {
        let before = own.drop_last();
        let last = own.last();
        assert forall|j: int, k: int| 0 <= j < k < before.len() implies #[trigger] before[j] < #[trigger] before[k] by {
            assert(own[j] < own[k]);
        }
        lemma_ready(planets, before, min);
        let front = ready(planets, before, min);
        let all = ready(planets, own, min);
        assert forall|i: usize| own.contains(i) == (before.contains(i) || i == last) by {
            if own.contains(i) {
                let k = choose|k: int| 0 <= k < own.len() && own[k] == i;
                if k < before.len() {
                    assert(before[k] == i);
                }
            }
            if before.contains(i) {
                let k = choose|k: int| 0 <= k < before.len() && before[k] == i;
                assert(own[k] == i);
            }
            assert(own[own.len() - 1] == last);
        }
        assert forall|i: usize| #[trigger] all.contains(i) <==> own.contains(i) && planets[i as int].ships >= min by {
            assert(front.contains(i) <==> before.contains(i) && planets[i as int].ships >= min);
            if front.contains(i) {
                let k = choose|k: int| 0 <= k < front.len() && front[k] == i;
                assert(all[k] == i);
            }
            if all.contains(i) {
                let k = choose|k: int| 0 <= k < all.len() && all[k] == i;
                if k < front.len() {
                    assert(front[k] == i);
                }
            }
            if planets[last as int].ships >= min {
                assert(all[front.len() as int] == last);
            }
        }
        assert forall|j: int, k: int| 0 <= j < k < all.len() implies #[trigger] all[j] < #[trigger] all[k] by {
            assert(all[j] == front[j]);
            if k < front.len() {
                assert(all[k] == front[k]);
            } else {
                assert(front.contains(front[j]));
                let m = choose|m: int| 0 <= m < before.len() && before[m] == front[j];
                assert(own[m] < own[own.len() - 1]);
            }
        }
    }
}

/// A planet is a place to launch from just where `player` holds it and has at least
/// `min` ships there; the places are in order.
pub proof fn lemma_ready_sources(planets: Seq<Planet>, player: i64, min: i64)
    requires
        planets.len() <= usize::MAX,
    ensures
        forall|i: usize|
            #[trigger] ready(planets, held(planets, player), min).contains(i) <==> i < planets.len()
                && planets[i as int].owner == player && planets[i as int].ships >= min,
        forall|j: int, k: int|
            0 <= j < k < ready(planets, held(planets, player), min).len() ==> #[trigger] ready(
                planets,
                held(planets, player),
                min,
            )[j] < #[trigger] ready(planets, held(planets, player), min)[k],
{
    let own = held(planets, player);
    lemma_held(planets, player);
    lemma_held_all(planets, player);
    lemma_ready(planets, own, min);
    assert forall|i: usize| own.contains(i) == (i < planets.len() && planets[i as int].owner == player) by {
        if own.contains(i) {
            let k = choose|k: int| 0 <= k < own.len() && own[k] == i;
            assert(own[k] < planets.len());
        }
        if i < planets.len() && planets[i as int].owner == player {
            assert(own.contains(i as int as usize));
        }
    }
}

/// The first step up to `n` at which another player holds the planet.
pub open spec fn flip_turn(f: crate::forecast::Forecast, player: int, n: nat) -> Option<int>
    decreases n,
{
    if n == 0 {
        None
    } else {
        match flip_turn(f, player, (n - 1) as nat) {
            Some(k) => Some(k),
            None => if f.after(n).owner != player && f.after(n).owner >= 0 {
                Some(n as int)
            } else {
                None
            },
        }
    }
}

/// How urgent it is to defend a planet that is lost at step `turn`: what it
/// would still make, and the ships on it.
pub open spec fn urgency(f: crate::forecast::Forecast, turn: int) -> int {
    f.prod * (f.horizon() - turn) + f.init.ships
}

/// The planets among `own` that are about to be lost, with their urgency.
pub open spec fn threatened(status: GarrisonStatus, own: Seq<usize>, player: i64) -> Seq<Ranked>
    decreases own.len(),
{
    if own.len() == 0 {
        Seq::empty()
    } else {
        let front = threatened(status, own.drop_last(), player);
        let f = status.planets@[own.last() as int].forecast();
        match flip_turn(f, player as int, f.horizon() as nat) {
            Some(turn) => front.push(Ranked { key: urgency(f, turn) as i128, idx: own.last() }),
            None => front,
        }
    }
}

fn find_flip(status: &GarrisonStatus, i: usize, player: i64) -> (r: Option<usize>)
    requires
        status.valid(),
        i < status.p,
    ensures
        match r {
            Some(k) => 1 <= k <= status.h && flip_turn(
                status.planets@[i as int].forecast(),
                player as int,
                status.h as nat,
            ) == Some(k as int),
            None => flip_turn(status.planets@[i as int].forecast(), player as int, status.h as nat) is None,
        },
{
    let pr = &status.planets[i];
    let ghost f = pr.forecast();
    assert(pr.valid(status.h as int, status.a as nat));
    let mut k: usize = 0;
    while k < status.h
        invariant
            k <= status.h,
            status.h < usize::MAX,
            *pr == status.planets@[i as int],
            pr.valid(status.h as int, status.a as nat),
            f == pr.forecast(),
            flip_turn(f, player as int, k as nat) is None,
        decreases status.h - k,
    {
        k += 1;
        assert(pr.course.owner@[k as int] == f.after(k as nat).owner);
        let o: i64 = pr.course.owner[k];
        if o != player && o >= 0 {
            proof {
                lemma_flip_stays(f, player as int, k as nat, status.h as nat);
            }
            return Some(k);
        }
    }
    None
}

proof fn lemma_flip_stays(f: crate::forecast::Forecast, player: int, n: nat, m: nat)
    requires
        n <= m,
        flip_turn(f, player, n) is Some,
    ensures
        flip_turn(f, player, m) == flip_turn(f, player, n),
    decreases m,
{
    if n < m {
        lemma_flip_stays(f, player, n, (m - 1) as nat);
    }
}

/// The `max` planets of `player` that are most urgent to defend: those that
/// another player is about to take.
pub fn defensive_targets(g: &GameState, status: &GarrisonStatus, player: i64, max: usize) -> (r: Vec<usize>)
    requires
        crate::garrison::describes(*status, g@),
    ensures
        r@ == crate::ranking::best(threatened(*status, held(g@.planets, player), player), max as nat),
        forall|k: int| 0 <= k < r@.len() ==> (#[trigger] r@[k]) < g@.planets.len(),
        r@.len() <= max,
        forall|k: int|
            0 <= k < r@.len() ==> g@.planets[(#[trigger] r@[k]) as int].owner == player && is_to_fall(
                *status,
                r@[k] as int,
                player,
            ),
        forall|i: int, t: int|
            0 <= i < g@.planets.len() && g@.planets[i].owner == player && #[trigger] falls_at(*status, i, player, t)
                ==> r@.len() == max || r@.contains(i as usize),
        forall|i: int, j: int, t: int, u: int|
            0 <= i < g@.planets.len() && 0 <= j < g@.planets.len() && g@.planets[i].owner == player
                && g@.planets[j].owner == player && #[trigger] falls_at(*status, i, player, t) && #[trigger] falls_at(
                *status,
                j,
                player,
                u,
            ) && goes_first(*status, i, t, j, u) ==> crate::ranking::leads(r@, i as usize, j as usize),
{
    let own = owned(g, player);
    let mut items: Vec<Ranked> = Vec::new();
    let mut i: usize = 0;
    assert(own@.take(0) =~= Seq::<usize>::empty());
    while i < own.len()
        invariant
            i <= own@.len(),
            status.valid(),
            status.p == g@.planets.len(),
            forall|k: int| 0 <= k < own@.len() ==> (#[trigger] own@[k]) < g@.planets.len(),
            items@ == threatened(*status, own@.take(i as int), player),
            forall|k: int| 0 <= k < items@.len() ==> (#[trigger] items@[k]).idx < g@.planets.len(),
        decreases own@.len() - i,
    {
        assert(own@.take(i + 1).drop_last() =~= own@.take(i as int));
        let at: usize = own[i];
        assert(own@[i as int] < g@.planets.len());
        let pr = &status.planets[at];
        let ghost f = pr.forecast();
        assert(pr.valid(status.h as int, status.a as nat));
        match find_flip(status, at, player) {
            Some(turn) => {
                proof {
                    crate::forecast::lemma_landing_total(f.arrivals, 0, f.arrivals.len());
                    assert(0 <= f.prod * (f.horizon() - turn) <= f.prod * f.horizon()) by (nonlinear_arith)
                        requires
                            f.prod >= 0,
                            0 <= turn <= f.horizon(),
                    ;
                }
                let rest: usize = status.h - turn;
                let key: i128 = pr.prod as i128 * rest as i128 + pr.course.ships[0] as i128;
                items.push(Ranked { key, idx: at });
            },
            None => {},
        }
        i += 1;
    }
    assert(own@.take(i as int) =~= own@);
    let r = best_of(&items, max);
    proof {
        lemma_defensive(g@, *status, player, max as nat);
        assert(r@ == crate::ranking::best(threatened(*status, held(g@.planets, player), player), max as nat));
    }
    r
}

/// Step `t` is the first at which planet `i` is another player's.
pub open spec fn falls_at(status: GarrisonStatus, i: int, player: i64, t: int) -> bool {
    let owner = status.planets@[i].course.owner@;
    &&& 1 <= t <= status.h
    &&& owner[t] >= 0 && owner[t] != player
    &&& forall|s: int| 1 <= s < t ==> (#[trigger] owner[s]) < 0 || owner[s] == player
}

/// There is a step at which planet `i` falls.
pub open spec fn is_to_fall(status: GarrisonStatus, i: int, player: i64) -> bool {
    exists|t: int| falls_at(status, i, player, t)
}

/// Whether planet `i`, which falls at step `t`, is to be defended before planet `j`,
/// which falls at step `u`: more ships are lost with it, those that are there now and
/// those that it would make from then to the horizon. So it is where, alike
/// otherwise, it falls sooner, makes more, or has more ships; or where neither is
/// worse in any of these, and its place comes first.
pub open spec fn goes_first(status: GarrisonStatus, i: int, t: int, j: int, u: int) -> bool {
    let (p, q) = (status.planets@[i], status.planets@[j]);
    let (a, b) = (p.course.ships@[0], q.course.ships@[0]);
    ||| a - b > q.prod * (status.h - u) - p.prod * (status.h - t)
    ||| t < u && p.prod == q.prod && p.prod > 0 && a == b
    ||| t == u && t < status.h && p.prod > q.prod && a == b
    ||| t == u && p.prod == q.prod && a > b
    ||| t <= u && p.prod >= q.prod && a > b
    ||| t <= u && p.prod >= q.prod && a >= b && i < j
}

/// The first step at which the planet is another player's is the one that is found.
pub proof fn lemma_flip(f: crate::forecast::Forecast, player: int, n: nat)
    ensures
        match flip_turn(f, player, n) {
            Some(t) => 1 <= t <= n && f.after(t as nat).owner >= 0 && f.after(t as nat).owner != player && forall|s: int|
                1 <= s < t ==> (#[trigger] f.after(s as nat)).owner < 0 || f.after(s as nat).owner == player,
            None => forall|s: int|
                1 <= s <= n ==> (#[trigger] f.after(s as nat)).owner < 0 || f.after(s as nat).owner == player,
        },
    decreases n,
{
    if n > 0 {
        lemma_flip(f, player, (n - 1) as nat);
    }
}

proof fn lemma_falls(status: GarrisonStatus, i: int, player: i64)
    requires
        status.valid(),
        0 <= i < status.p,
    ensures
        ({
            let f = status.planets@[i].forecast();
            match flip_turn(f, player as int, f.horizon() as nat) {
                Some(t) => falls_at(status, i, player, t) && forall|u: int| #[trigger]
                    falls_at(status, i, player, u) ==> u == t,
                None => forall|u: int| !#[trigger] falls_at(status, i, player, u),
            }
        }),
{
    let pr = status.planets@[i];
    let f = pr.forecast();
    let owner = pr.course.owner@;
    assert(pr.valid(status.h as int, status.a as nat));
    lemma_flip(f, player as int, f.horizon() as nat);
    assert forall|s: int| 0 <= s <= status.h implies #[trigger] owner[s] == f.after(s as nat).owner by {}
    match flip_turn(f, player as int, f.horizon() as nat) {
        Some(t) => {
            assert(owner[t] == f.after(t as nat).owner);
            assert forall|u: int| #[trigger] falls_at(status, i, player, u) implies u == t by {
                if u < t {
                    assert(owner[u] == f.after(u as nat).owner);
                } else if t < u {
                    assert(owner[t] < 0 || owner[t] == player);
                }
            }
        },
        None => {
            assert forall|u: int| !#[trigger] falls_at(status, i, player, u) by {
                if falls_at(status, i, player, u) {
                    assert(owner[u] == f.after(u as nat).owner);
                }
            }
        },
    }
}

proof fn lemma_urgency(f: crate::forecast::Forecast, a: nat, turn: int)
    requires
        f.valid(a),
        f.reach() <= crate::forecast::SHIP_LIMIT,
        1 <= turn <= f.horizon(),
    ensures
        0 <= urgency(f, turn) <= crate::forecast::SHIP_LIMIT,
{
    crate::forecast::lemma_landing_total(f.arrivals, 0, f.arrivals.len());
    assert(0 <= f.prod * (f.horizon() - turn) <= f.prod * f.horizon()) by (nonlinear_arith)
        requires
            f.prod >= 0,
            0 <= turn <= f.horizon(),
    ;
}

proof fn lemma_threatened(status: GarrisonStatus, own: Seq<usize>, player: i64)
    requires
        status.valid(),
        forall|k: int| 0 <= k < own.len() ==> (#[trigger] own[k]) < status.p,
        forall|j: int, k: int| 0 <= j < k < own.len() ==> #[trigger] own[j] < #[trigger] own[k],
    ensures
        crate::ranking::apart(threatened(status, own, player)),
        forall|k: int|
            0 <= k < threatened(status, own, player).len() ==> ({
                let x = #[trigger] threatened(status, own, player)[k];
                let f = status.planets@[x.idx as int].forecast();
                &&& own.contains(x.idx)
                &&& flip_turn(f, player as int, f.horizon() as nat) matches Some(t) && x.key == urgency(f, t)
            }),
        forall|i: usize|
            own.contains(i) && flip_turn(
                (#[trigger] status.planets@[i as int]).forecast(),
                player as int,
                status.planets@[i as int].forecast().horizon() as nat,
            ) is Some ==> crate::ranking::listed(threatened(status, own, player), i),
    decreases own.len(),
{
    if own.len() > 0 {
        let before = own.drop_last();
        let last = own.last();
        assert forall|k: int| 0 <= k < before.len() implies (#[trigger] before[k]) < status.p by {
            assert(own[k] < status.p);
        }
        assert forall|j: int, k: int| 0 <= j < k < before.len() implies #[trigger] before[j] < #[trigger] before[k] by {
            assert(own[j] < own[k]);
        }
        lemma_threatened(status, before, player);
        let front = threatened(status, before, player);
        let all = threatened(status, own, player);
        assert(own[own.len() - 1] < status.p);
        let f = status.planets@[last as int].forecast();
        assert(status.planets@[last as int].valid(status.h as int, status.a as nat));
        lemma_flip(f, player as int, f.horizon() as nat);
        if let Some(t) = flip_turn(f, player as int, f.horizon() as nat) {
            lemma_urgency(f, status.a as nat, t);
        }
        assert forall|k: int| 0 <= k < all.len() implies ({
            let x = #[trigger] all[k];
            let f = status.planets@[x.idx as int].forecast();
            &&& own.contains(x.idx)
            &&& flip_turn(f, player as int, f.horizon() as nat) matches Some(t) && x.key == urgency(f, t)
        }) by {
            if k < front.len() {
                assert(all[k] == front[k]);
                let m = choose|m: int| 0 <= m < before.len() && before[m] == front[k].idx;
                assert(own[m] == all[k].idx);
            } else {
                assert(own[own.len() - 1] == all[k].idx);
            }
        }
        assert forall|i: int, j: int| 0 <= i < j < all.len() implies (#[trigger] all[i]).idx != (
        #[trigger] all[j]).idx by {
            assert(all[i] == front[i]);
            if j < front.len() {
                assert(all[j] == front[j]);
            } else {
                let m = choose|m: int| 0 <= m < before.len() && before[m] == front[i].idx;
                assert(own[m] < own[own.len() - 1]);
            }
        }
        assert forall|i: usize|
            own.contains(i) && flip_turn(
                (#[trigger] status.planets@[i as int]).forecast(),
                player as int,
                status.planets@[i as int].forecast().horizon() as nat,
            ) is Some implies crate::ranking::listed(all, i) by {
            let k = choose|k: int| 0 <= k < own.len() && own[k] == i;
            if k < before.len() {
                assert(before[k] == i);
                assert(crate::ranking::listed(front, i));
                let m = choose|m: int| 0 <= m < front.len() && (#[trigger] front[m]).idx == i;
                assert(all[m].idx == i);
            } else {
                assert(all[front.len() as int].idx == i);
            }
        }
    }
}

/// The planets to defend are those of `player` that another player takes within the
/// horizon. All of these are listed where there is room. Of two with the same
/// production and ships, the one that falls sooner always stands first; of two that
/// fall at the same step, the one that makes more, or has more ships; and of two that
/// are alike, the one whose place comes first.
pub proof fn lemma_defensive(g: GameModel, status: GarrisonStatus, player: i64, max: nat)
    requires
        crate::garrison::describes(status, g),
    ensures
        ({
            let r = crate::ranking::best(threatened(status, held(g.planets, player), player), max);
            &&& r.len() <= max
            &&& forall|k: int|
                0 <= k < r.len() ==> (#[trigger] r[k]) < g.planets.len() && g.planets[r[k] as int].owner == player
                    && is_to_fall(status, r[k] as int, player)
            &&& forall|i: int, t: int|
                0 <= i < g.planets.len() && g.planets[i].owner == player && #[trigger] falls_at(status, i, player, t)
                    ==> r.len() == max || r.contains(i as usize)
            &&& forall|i: int, j: int, t: int, u: int|
                0 <= i < g.planets.len() && 0 <= j < g.planets.len() && g.planets[i].owner == player
                    && g.planets[j].owner == player && #[trigger] falls_at(status, i, player, t) && #[trigger] falls_at(
                    status,
                    j,
                    player,
                    u,
                ) && goes_first(status, i, t, j, u) ==> crate::ranking::leads(r, i as usize, j as usize)
        }),
{
    let own = held(g.planets, player);
    let items = threatened(status, own, player);
    let r = crate::ranking::best(items, max);
    lemma_held(g.planets, player);
    lemma_held_all(g.planets, player);
    lemma_threatened(status, own, player);
    crate::ranking::lemma_best(items, max);
    crate::ranking::lemma_best_all(items, max);
    assert forall|k: int| 0 <= k < r.len() implies (#[trigger] r[k]) < g.planets.len() && g.planets[r[k] as int].owner
        == player && is_to_fall(status, r[k] as int, player) by {
        assert(crate::ranking::listed(items, r[k]));
        let j = choose|j: int| 0 <= j < items.len() && (#[trigger] items[j]).idx == r[k];
        assert(own.contains(items[j].idx));
        let m = choose|m: int| 0 <= m < own.len() && own[m] == r[k];
        assert(own[m] < g.planets.len());
        lemma_falls(status, r[k] as int, player);
        let f = status.planets@[r[k] as int].forecast();
        let t = flip_turn(f, player as int, f.horizon() as nat)->0;
        assert(falls_at(status, r[k] as int, player, t));
    }
    assert forall|i: int, t: int|
        0 <= i < g.planets.len() && g.planets[i].owner == player && #[trigger] falls_at(
            status,
            i,
            player,
            t,
        ) implies crate::ranking::listed(items, i as usize) by {
        lemma_falls(status, i, player);
        assert(own.contains(i as usize));
        assert(status.planets@[i as usize as int] == status.planets@[i]);
    }
    assert forall|i: int, t: int|
        0 <= i < g.planets.len() && g.planets[i].owner == player && #[trigger] falls_at(
            status,
            i,
            player,
            t,
        ) implies r.len() == max || r.contains(i as usize) by {
        assert(crate::ranking::listed(items, i as usize));
        let k = choose|k: int| 0 <= k < items.len() && (#[trigger] items[k]).idx == i as usize;
    }
    assert forall|i: int, j: int, t: int, u: int|
        0 <= i < g.planets.len() && 0 <= j < g.planets.len() && g.planets[i].owner == player && g.planets[j].owner
            == player && #[trigger] falls_at(status, i, player, t) && #[trigger] falls_at(status, j, player, u)
            && goes_first(status, i, t, j, u) implies crate::ranking::leads(r, i as usize, j as usize) by {
        assert(crate::ranking::listed(items, i as usize));
        assert(crate::ranking::listed(items, j as usize));
        let a = choose|a: int| 0 <= a < items.len() && (#[trigger] items[a]).idx == i as usize;
        let b = choose|b: int| 0 <= b < items.len() && (#[trigger] items[b]).idx == j as usize;
        lemma_falls(status, i, player);
        lemma_falls(status, j, player);
        let (p, q) = (status.planets@[i].forecast(), status.planets@[j].forecast());
        assert(status.planets@[i].valid(status.h as int, status.a as nat));
        assert(status.planets@[j].valid(status.h as int, status.a as nat));
        let h = status.h as int;
        lemma_weight(p.prod, h, t, q.prod, u);
        crate::ranking::lemma_best_order(items, max, a, b);
    }
}

/// No planet to defend is listed twice.
pub proof fn lemma_defensive_once(g: GameModel, status: GarrisonStatus, player: i64, max: nat)
    requires
        crate::garrison::describes(status, g),
    ensures
        ({
            let r = crate::ranking::best(threatened(status, held(g.planets, player), player), max);
            forall|i: int, j: int| 0 <= i < j < r.len() ==> #[trigger] r[i] != #[trigger] r[j]
        }),
{
    let own = held(g.planets, player);
    lemma_held(g.planets, player);
    lemma_threatened(status, own, player);
    crate::ranking::lemma_best_apart(threatened(status, own, player), max);
}

proof fn lemma_weight(p: int, h: int, t: int, q: int, u: int)
    by (nonlinear_arith)
    requires
        p >= 0,
        q >= 0,
        t <= h,
        u <= h,
    ensures
        p == q && p > 0 && t < u ==> p * (h - t) > q * (h - u),
        p > q && t == u && t < h ==> p * (h - t) > q * (h - u),
        p >= q && t <= u ==> p * (h - t) >= q * (h - u),
{
}

/// The targets of `more` that are not among `base`, added to it.
pub open spec fn merged(base: Seq<usize>, more: Seq<usize>) -> Seq<usize>
    decreases more.len(),
{
    if more.len() == 0 {
        base
    } else {
        let front = merged(base, more.drop_last());
        if front.contains(more.last()) {
            front
        } else {
            front.push(more.last())
        }
    }
}

/// All targets: the offensive ones, then the defensive ones.
pub fn all_targets(offensive: &Vec<usize>, defensive: &Vec<usize>) -> (r: Vec<usize>)
    ensures
        r@ == merged(offensive@, defensive@),
        forall|k: int|
            0 <= k < r@.len() ==> offensive@.contains(#[trigger] r@[k]) || defensive@.contains(r@[k]),
        offensive@.is_prefix_of(r@),
        forall|k: int| 0 <= k < defensive@.len() ==> r@.contains(#[trigger] defensive@[k]),
        forall|j: int, k: int|
            0 <= j < k < r@.len() && k >= offensive@.len() ==> #[trigger] r@[j] != #[trigger] r@[k],
{
    let mut r: Vec<usize> = Vec::new();
    r.extend_from_slice(offensive.as_slice());
    assert(r@ =~= offensive@);
    let mut i: usize = 0;
    assert(defensive@.take(0) =~= Seq::<usize>::empty());
    while i < defensive.len()
        invariant
            i <= defensive@.len(),
            r@ == merged(offensive@, defensive@.take(i as int)),
            forall|k: int|
                0 <= k < r@.len() ==> offensive@.contains(#[trigger] r@[k]) || defensive@.contains(r@[k]),
        decreases defensive@.len() - i,
    {
        assert(defensive@.take(i + 1).drop_last() =~= defensive@.take(i as int));
        let t: usize = defensive[i];
        let mut k: usize = 0;
        while k < r.len() && r[k] != t
            invariant
                k <= r@.len(),
                forall|m: int| 0 <= m < k ==> r@[m] != t,
            decreases r@.len() - k,
        {
            k += 1;
        }
        if k == r.len() {
            assert(!r@.contains(t));
            assert(defensive@.contains(t));
            r.push(t);
        } else {
            assert(r@[k as int] == t);
        }
        i += 1;
    }
    assert(defensive@.take(i as int) =~= defensive@);
    proof {
        lemma_merged(offensive@, defensive@);
    }
    r
}

/// All targets are the first ones, in their order, and then those of the others that
/// are new, each once and in their order.
pub proof fn lemma_merged(base: Seq<usize>, more: Seq<usize>)
    ensures
        base.is_prefix_of(merged(base, more)),
        forall|k: int| 0 <= k < more.len() ==> merged(base, more).contains(#[trigger] more[k]),
        forall|j: int, k: int|
            0 <= j < k < merged(base, more).len() && k >= base.len() ==> #[trigger] merged(base, more)[j]
                != #[trigger] merged(base, more)[k],
        forall|k: int|
            base.len() <= k < merged(base, more).len() ==> more.contains(#[trigger] merged(base, more)[k]),
        forall|j: int, k: int|
            base.len() <= j < k < merged(base, more).len() ==> in_turn(
                more,
                #[trigger] merged(base, more)[j],
                #[trigger] merged(base, more)[k],
            ),
    decreases more.len(),
{
    if more.len() > 0 {
        let before = more.drop_last();
        lemma_merged(base, before);
        let front = merged(base, before);
        let all = merged(base, more);
        let last = more.len() - 1;
        assert(base.is_prefix_of(all)) by {
            assert forall|i: int| 0 <= i < base.len() implies base[i] == all[i] by {
                assert(base[i] == front.subrange(0, base.len() as int)[i]);
                assert(front[i] == all[i]);
            }
            assert(base =~= all.subrange(0, base.len() as int));
        }
        assert forall|k: int| 0 <= k < more.len() implies all.contains(#[trigger] more[k]) by {
            if k < last {
                assert(before[k] == more[k]);
                let m = choose|m: int| 0 <= m < front.len() && front[m] == before[k];
                assert(all[m] == more[k]);
            } else if front.contains(more[last]) {
            } else {
                assert(all[front.len() as int] == more[last]);
            }
        }
        assert forall|j: int, k: int| 0 <= j < k < all.len() && k >= base.len() implies #[trigger] all[j]
            != #[trigger] all[k] by {
            assert(all[j] == front[j]);
            if k < front.len() {
                assert(all[k] == front[k]);
            } else {
                assert(front.contains(front[j]));
            }
        }
        assert forall|k: int| base.len() <= k < all.len() implies more.contains(#[trigger] all[k]) by {
            if k < front.len() {
                assert(all[k] == front[k]);
                let m = choose|m: int| 0 <= m < before.len() && before[m] == front[k];
                assert(more[m] == all[k]);
            } else {
                assert(more[last] == all[k]);
            }
        }
        assert forall|j: int, k: int| base.len() <= j < k < all.len() implies in_turn(
            more,
            #[trigger] all[j],
            #[trigger] all[k],
        ) by {
            assert(all[j] == front[j]);
            if k < front.len() {
                assert(all[k] == front[k]);
                assert(in_turn(before, front[j], front[k]));
                let (a, b) = choose|a: int, b: int|
                    0 <= a < b < before.len() && #[trigger] before[a] == front[j] && #[trigger] before[b] == front[k];
                assert(more[a] == all[j] && more[b] == all[k]);
            } else {
                assert(before.contains(front[j]));
                let a = choose|a: int| 0 <= a < before.len() && before[a] == front[j];
                assert(more[a] == all[j] && more[last] == all[k]);
            }
        }
    }
}

/// `x` is listed before `y`.
pub open spec fn in_turn(list: Seq<usize>, x: usize, y: usize) -> bool {
    exists|a: int, b: int| 0 <= a < b < list.len() && #[trigger] list[a] == x && #[trigger] list[b] == y
}

/// The planets of `own` with their ships.
pub open spec fn by_ships(planets: Seq<Planet>, own: Seq<usize>) -> Seq<Ranked> {
    Seq::new(own.len(), |k: int| Ranked { key: planets[own[k] as int].ships as i128, idx: own[k] })
}

/// The `max` planets of `player` with the most ships.
pub fn ranked_sources(g: &GameState, player: i64, max: usize) -> (r: Vec<usize>)
    ensures
        r@ == crate::ranking::best(by_ships(g@.planets, held(g@.planets, player)), max as nat),
        forall|k: int|
            0 <= k < r@.len() ==> (#[trigger] r@[k]) < g@.planets.len() && g@.planets[r@[k] as int].owner == player,
        r@.len() <= max,
        forall|i: int|
            0 <= i < g@.planets.len() && (#[trigger] g@.planets[i]).owner == player ==> r@.len() == max || r@.contains(
                i as usize,
            ),
        forall|i: int, j: int|
            0 <= i < g@.planets.len() && 0 <= j < g@.planets.len() && (#[trigger] g@.planets[i]).owner == player && (
            #[trigger] g@.planets[j]).owner == player && (g@.planets[i].ships > g@.planets[j].ships || (
            g@.planets[i].ships == g@.planets[j].ships && i < j)) ==> crate::ranking::leads(
                r@,
                i as usize,
                j as usize,
            ),
{
    let own = owned(g, player);
    let mut items: Vec<Ranked> = Vec::new();
    let mut i: usize = 0;
    while i < own.len()
        invariant
            i <= own@.len(),
            forall|k: int| 0 <= k < own@.len() ==> (#[trigger] own@[k]) < g@.planets.len(),
            items@ =~= by_ships(g@.planets, own@).take(i as int),
        decreases own@.len() - i,
    {
        assert(own@[i as int] < g@.planets.len());
        let ships: i64 = g.planets[own[i]].ships;
        items.push(Ranked { key: ships as i128, idx: own[i] });
        i += 1;
    }
    assert(items@ =~= by_ships(g@.planets, own@));
    assert forall|k: int| 0 <= k < items@.len() implies (#[trigger] items@[k]).idx < g@.planets.len()
        && g@.planets[items@[k].idx as int].owner == player by {
        assert(items@[k].idx == own@[k]);
    }
    proof {
        assert(g@.planets.len() == g.planets.len());
        lemma_sources(g@.planets, player, max as nat);
    }
    best_of(&items, max)
}

/// Planets to launch from are those of `player`. All of them are listed where there is
/// room, and the one with more ships always stands before the one with fewer; of two
/// with as many, the one whose place comes first.
pub proof fn lemma_sources(planets: Seq<Planet>, player: i64, max: nat)
    requires
        planets.len() <= usize::MAX,
    ensures
        ({
            let r = crate::ranking::best(by_ships(planets, held(planets, player)), max);
            &&& r.len() <= max
            &&& forall|k: int|
                0 <= k < r.len() ==> (#[trigger] r[k]) < planets.len() && planets[r[k] as int].owner == player
            &&& forall|i: int|
                0 <= i < planets.len() && (#[trigger] planets[i]).owner == player ==> r.len() == max || r.contains(
                    i as usize,
                )
            &&& forall|i: int, j: int|
                0 <= i < planets.len() && 0 <= j < planets.len() && (#[trigger] planets[i]).owner == player && (
                #[trigger] planets[j]).owner == player && (planets[i].ships > planets[j].ships || (planets[i].ships
                    == planets[j].ships && i < j)) ==> crate::ranking::leads(r, i as usize, j as usize)
        }),
{
    let own = held(planets, player);
    let items = by_ships(planets, own);
    let r = crate::ranking::best(items, max);
    lemma_held(planets, player);
    lemma_held_all(planets, player);
    crate::ranking::lemma_best(items, max);
    crate::ranking::lemma_best_all(items, max);
    assert forall|i: int, j: int| 0 <= i < j < items.len() implies (#[trigger] items[i]).idx != (
    #[trigger] items[j]).idx by {
        assert(own[i] < own[j]);
    }
    assert forall|k: int| 0 <= k < r.len() implies (#[trigger] r[k]) < planets.len() && planets[r[k] as int].owner
        == player by {
        assert(crate::ranking::listed(items, r[k]));
        let j = choose|j: int| 0 <= j < items.len() && (#[trigger] items[j]).idx == r[k];
        assert(own[j] == r[k]);
    }
    assert forall|i: int| 0 <= i < planets.len() && (#[trigger] planets[i]).owner == player implies r.len() == max
        || r.contains(i as usize) by {
        let k = choose|k: int| 0 <= k < own.len() && own[k] == i as usize;
        assert(items[k].idx == i as usize);
    }
    assert forall|i: int, j: int|
        0 <= i < planets.len() && 0 <= j < planets.len() && (#[trigger] planets[i]).owner == player && (
        #[trigger] planets[j]).owner == player && (planets[i].ships > planets[j].ships || (planets[i].ships
            == planets[j].ships && i < j)) implies crate::ranking::leads(r, i as usize, j as usize) by {
        let a = choose|a: int| 0 <= a < own.len() && own[a] == i as usize;
        let b = choose|b: int| 0 <= b < own.len() && own[b] == j as usize;
        assert(items[a].idx == i as usize && items[b].idx == j as usize);
        crate::ranking::lemma_best_order(items, max, a, b);
    }
}

/// A launch to aim: `ships` from planet `src` at planet `tgt`.
#[derive(Clone, Copy, PartialEq, Eq, Structural, Debug)]
pub struct Request {
    pub src: usize,
    pub tgt: usize,
    pub ships: i64,
}

/// The launch goes from a planet that `player` holds, with ships that are there.
pub open spec fn proper(g: GameModel, player: i64, r: Request) -> bool {
    &&& r.src < g.planets.len()
    &&& r.tgt < g.planets.len()
    &&& r.src != r.tgt
    &&& g.planets[r.src as int].owner == player
    &&& 0 <= r.ships <= g.planets[r.src as int].ships
}

/// The launches of `ships` from `src` at each of `tgts` but itself.
pub open spec fn requests_from(src: usize, ships: i64, tgts: Seq<usize>) -> Seq<Request>
    decreases tgts.len(),
{
    if tgts.len() == 0 {
        Seq::empty()
    } else {
        let front = requests_from(src, ships, tgts.drop_last());
        if tgts.last() == src {
            front
        } else {
            front.push(Request { src, tgt: tgts.last(), ships })
        }
    }
}

/// The ships that planet `i` can safely spare.
pub open spec fn spare(status: GarrisonStatus, i: int, player: i64) -> int {
    crate::flow::safe_drain(status.planets@[i].forecast(), player as int, status.h as nat)
}

/// The launches to aim: from each source that can spare at least `min` ships,
/// with all it can spare, at each target.
pub open spec fn requests(
    status: GarrisonStatus,
    srcs: Seq<usize>,
    tgts: Seq<usize>,
    player: i64,
    min: i64,
) -> Seq<Request>
    decreases srcs.len(),
{
    if srcs.len() == 0 {
        Seq::empty()
    } else {
        let front = requests(status, srcs.drop_last(), tgts, player, min);
        let n = spare(status, srcs.last() as int, player);
        if n < min {
            front
        } else {
            front + requests_from(srcs.last(), n as i64, tgts)
        }
    }
}

proof fn lemma_spare(status: GarrisonStatus, i: int, player: i64)
    requires
        status.valid(),
        0 <= i < status.p,
    ensures
        0 <= spare(status, i, player) <= status.planets@[i].forecast().init.ships,
{
    assert(status.planets@[i].valid(status.h as int, status.a as nat));
    crate::flow::lemma_drain_bounds(status.planets@[i].forecast(), status.a as nat, player as int, status.h as nat);
}

/// The launches from `src` go at targets other than `src`.
pub proof fn lemma_requests_from(src: usize, ships: i64, tgts: Seq<usize>)
    ensures
        forall|k: int|
            0 <= k < requests_from(src, ships, tgts).len() ==> (#[trigger] requests_from(src, ships, tgts)[k]).src == src
                && requests_from(src, ships, tgts)[k].ships == ships && requests_from(src, ships, tgts)[k].tgt != src
                && tgts.contains(requests_from(src, ships, tgts)[k].tgt),
    decreases tgts.len(),
{
    if tgts.len() > 0 {
        let before = tgts.drop_last();
        lemma_requests_from(src, ships, before);
        let front = requests_from(src, ships, before);
        let all = requests_from(src, ships, tgts);
        assert forall|k: int| 0 <= k < all.len() implies (#[trigger] all[k]).src == src && all[k].ships == ships
            && all[k].tgt != src && tgts.contains(all[k].tgt) by {
            if k < front.len() {
                assert(all[k] == front[k]);
                let j = choose|j: int| 0 <= j < before.len() && before[j] == front[k].tgt;
                assert(tgts[j] == all[k].tgt);
            } else {
                assert(tgts[tgts.len() - 1] == all[k].tgt);
            }
        }
    }
}

/// The launches to aim go from planets of `player`, with ships that are there.
pub proof fn lemma_requests(
    g: GameModel,
    status: GarrisonStatus,
    srcs: Seq<usize>,
    tgts: Seq<usize>,
    player: i64,
    min: i64,
)
    requires
        crate::garrison::describes(status, g),
        forall|k: int|
            0 <= k < srcs.len() ==> (#[trigger] srcs[k]) < g.planets.len() && g.planets[srcs[k] as int].owner == player,
        forall|k: int| 0 <= k < tgts.len() ==> (#[trigger] tgts[k]) < g.planets.len(),
    ensures
        forall|k: int|
            0 <= k < requests(status, srcs, tgts, player, min).len() ==> #[trigger] proper(
                g,
                player,
                requests(status, srcs, tgts, player, min)[k],
            ),
        forall|k: int|
            0 <= k < requests(status, srcs, tgts, player, min).len() ==> (#[trigger] requests(
                status,
                srcs,
                tgts,
                player,
                min,
            )[k]).ships >= min,
    decreases srcs.len(),
{
    if srcs.len() > 0 {
        let before = srcs.drop_last();
        assert forall|k: int| 0 <= k < before.len() implies (#[trigger] before[k]) < g.planets.len()
            && g.planets[before[k] as int].owner == player by {
            assert(before[k] == srcs[k]);
        }
        lemma_requests(g, status, before, tgts, player, min);
        let src = srcs.last();
        assert(srcs[srcs.len() - 1] < g.planets.len());
        lemma_spare(status, src as int, player);
        assert(status.planets@[src as int].forecast().init.ships == g.planets[src as int].ships);
        let n = spare(status, src as int, player) as i64;
        lemma_requests_from(src, n, tgts);
        let front = requests(status, before, tgts, player, min);
        let more = requests_from(src, n, tgts);
        let all = requests(status, srcs, tgts, player, min);
        assert forall|k: int| 0 <= k < all.len() implies proper(g, player, #[trigger] all[k]) && all[k].ships >= min by {
            if k < front.len() {
                assert(all[k] == front[k]);
                assert(proper(g, player, front[k]));
            } else {
                assert(all[k] == more[k - front.len()]);
            }
        }
    }
}

/// Lists the launches to aim, source by source.
pub fn launch_requests(
    g: &GameState,
    status: &GarrisonStatus,
    srcs: &Vec<usize>,
    tgts: &Vec<usize>,
    player: i64,
    min: i64,
) -> (r: Vec<Request>)
    requires
        crate::garrison::describes(*status, g@),
        0 <= player,
        player <= usize::MAX,
        forall|k: int|
            0 <= k < srcs@.len() ==> (#[trigger] srcs@[k]) < g@.planets.len() && g@.planets[srcs@[k] as int].owner
                == player,
        forall|k: int| 0 <= k < tgts@.len() ==> (#[trigger] tgts@[k]) < g@.planets.len(),
    ensures
        r@ == requests(*status, srcs@, tgts@, player, min),
        forall|k: int| 0 <= k < r@.len() ==> #[trigger] proper(g@, player, r@[k]),
        forall|k: int| 0 <= k < r@.len() ==> (#[trigger] r@[k]).ships >= min,
        forall|x: Request|
            #[trigger] r@.contains(x) <==> srcs@.contains(x.src) && tgts@.contains(x.tgt) && x.src != x.tgt && x.ships
                == spare(*status, x.src as int, player) && x.ships >= min,
{
    let mut r: Vec<Request> = Vec::new();
    let mut i: usize = 0;
    assert(srcs@.take(0) =~= Seq::<usize>::empty());
    while i < srcs.len()
        invariant
            i <= srcs@.len(),
            crate::garrison::describes(*status, g@),
            0 <= player,
            player <= usize::MAX,
            forall|k: int|
                0 <= k < srcs@.len() ==> (#[trigger] srcs@[k]) < g@.planets.len() && g@.planets[srcs@[k] as int].owner
                    == player,
            forall|k: int| 0 <= k < tgts@.len() ==> (#[trigger] tgts@[k]) < g@.planets.len(),
            r@ == requests(*status, srcs@.take(i as int), tgts@, player, min),
        decreases srcs@.len() - i,
    {
        assert(srcs@.take(i + 1).drop_last() =~= srcs@.take(i as int));
        let src: usize = srcs[i];
        assert(srcs@[i as int] < status.p);
        let ships: i64 = safe_drain_planet(status, src, player as usize, status.h);
        if ships >= min {
            let ghost start = r@;
            let mut k: usize = 0;
            assert(tgts@.take(0) =~= Seq::<usize>::empty());
            assert(start + requests_from(src, ships, tgts@.take(0)) =~= start);
            while k < tgts.len()
                invariant
                    k <= tgts@.len(),
                    r@ == start + requests_from(src, ships, tgts@.take(k as int)),
                decreases tgts@.len() - k,
            {
                assert(tgts@.take(k + 1).drop_last() =~= tgts@.take(k as int));
                let tgt: usize = tgts[k];
                if tgt != src {
                    r.push(Request { src, tgt, ships });
                }
                k += 1;
                assert(r@ =~= start + requests_from(src, ships, tgts@.take(k as int)));
            }
            assert(tgts@.take(k as int) =~= tgts@);
        }
        i += 1;
    }
    assert(srcs@.take(i as int) =~= srcs@);
    proof {
        lemma_requests(g@, *status, srcs@, tgts@, player, min);
        lemma_requests_all(*status, srcs@, tgts@, player, min);
    }
    r
}

/// The launches from `src` go at each of the targets but itself.
pub proof fn lemma_each_target(src: usize, ships: i64, tgts: Seq<usize>)
    ensures
        forall|x: Request|
            #[trigger] requests_from(src, ships, tgts).contains(x) <==> x.src == src && x.ships == ships && x.tgt != src
                && tgts.contains(x.tgt),
    decreases tgts.len(),
{
    lemma_requests_from(src, ships, tgts);
    let all = requests_from(src, ships, tgts);
    if tgts.len() > 0 {
        let before = tgts.drop_last();
        lemma_each_target(src, ships, before);
        let front = requests_from(src, ships, before);
        assert forall|x: Request|
            x.src == src && x.ships == ships && x.tgt != src && tgts.contains(x.tgt) implies #[trigger] all.contains(x) by {
            let k = choose|k: int| 0 <= k < tgts.len() && tgts[k] == x.tgt;
            if k < before.len() {
                assert(before[k] == x.tgt);
                assert(front.contains(x));
                let m = choose|m: int| 0 <= m < front.len() && front[m] == x;
                assert(all[m] == x);
            } else {
                assert(all[front.len() as int] == x);
            }
        }
    }
}

/// A launch is aimed just where it goes from one of the sources at another planet
/// among the targets, with all that the source can safely spare, and that is `min`
/// ships or more.
pub proof fn lemma_requests_all(status: GarrisonStatus, srcs: Seq<usize>, tgts: Seq<usize>, player: i64, min: i64)
    requires
        status.valid(),
        forall|k: int| 0 <= k < srcs.len() ==> (#[trigger] srcs[k]) < status.p,
    ensures
        forall|x: Request|
            #[trigger] requests(status, srcs, tgts, player, min).contains(x) <==> srcs.contains(x.src)
                && tgts.contains(x.tgt) && x.src != x.tgt && x.ships == spare(status, x.src as int, player) && x.ships
                >= min,
    decreases srcs.len(),
{
    let all = requests(status, srcs, tgts, player, min);
    if srcs.len() > 0 {
        let before = srcs.drop_last();
        let last = srcs.last();
        assert forall|k: int| 0 <= k < before.len() implies (#[trigger] before[k]) < status.p by {
            assert(srcs[k] < status.p);
        }
        lemma_requests_all(status, before, tgts, player, min);
        assert(srcs[srcs.len() - 1] < status.p);
        lemma_spare(status, last as int, player);
        let front = requests(status, before, tgts, player, min);
        let n = spare(status, last as int, player);
        assert(status.planets@[last as int].valid(status.h as int, status.a as nat));
        crate::forecast::lemma_after(status.planets@[last as int].forecast(), status.a as nat, 0);
        let more = requests_from(last, n as i64, tgts);
        lemma_each_target(last, n as i64, tgts);
        assert forall|i: usize| srcs.contains(i) == (before.contains(i) || i == last) by {
            if srcs.contains(i) {
                let k = choose|k: int| 0 <= k < srcs.len() && srcs[k] == i;
                if k < before.len() {
                    assert(before[k] == i);
                }
            }
            if before.contains(i) {
                let k = choose|k: int| 0 <= k < before.len() && before[k] == i;
                assert(srcs[k] == i);
            }
            assert(srcs[srcs.len() - 1] == last);
        }
        assert forall|x: Request|
            #[trigger] all.contains(x) <==> srcs.contains(x.src) && tgts.contains(x.tgt) && x.src != x.tgt && x.ships
                == spare(status, x.src as int, player) && x.ships >= min by {
            assert(front.contains(x) <==> before.contains(x.src) && tgts.contains(x.tgt) && x.src != x.tgt && x.ships
                == spare(status, x.src as int, player) && x.ships >= min);
            assert(more.contains(x) <==> x.src == last && x.ships == n as i64 && x.tgt != last && tgts.contains(x.tgt));
            if front.contains(x) {
                let k = choose|k: int| 0 <= k < front.len() && front[k] == x;
                assert(all[k] == x);
            }
            if n >= min && more.contains(x) {
                let k = choose|k: int| 0 <= k < more.len() && more[k] == x;
                assert(all[front.len() + k] == x);
            }
            if all.contains(x) {
                let k = choose|k: int| 0 <= k < all.len() && all[k] == x;
                if k < front.len() {
                    assert(front[k] == x);
                } else {
                    assert(more[k - front.len()] == x);
                }
            }
        }
    }
}

/// An aimed launch: the angle, and the legs of its flight up to the horizon.
pub struct Shot {
    pub angle: Double,
    pub legs: Vec<FleetMove>,
}

/// A launch that is worth making.
#[derive(Clone, Copy, PartialEq, Eq, Structural, Debug)]
pub struct Candidate {
    pub score: i128,
    pub src_idx: usize,
    pub tgt_idx: usize,
    pub ships: i64,
    pub eta: usize,
    pub angle: Double,
}

/// The step at which the shot reaches planet `tgt`, if that is what it reaches
/// first.
pub open spec fn hits(shot: Shot, tgt: usize) -> Option<int> {
    match crate::garrison::voyage(shot.legs@, shot.legs@.len()) {
        crate::garrison::Voyage::Arrives { planet, step } => if planet == tgt {
            Some(step)
        } else {
            None
        },
        _ => None,
    }
}

/// The launch as a candidate, if its shot reaches the target, if its ships
/// suffice to take what they find there, and if its score exceeds `roi`.
pub open spec fn candidate(status: GarrisonStatus, r: Request, shot: Shot, player: i64, roi: Double) -> Option<Candidate> {
    match hits(shot, r.tgt) {
        Some(eta) => {
            let tgt = status.planets@[r.tgt as int].forecast();
            let score = crate::flow::launch_score(
                status.planets@[r.src as int].forecast(),
                tgt,
                player as int,
                r.ships as int,
                eta,
                status.a as nat,
            );
            if r.ships >= crate::flow::ships_needed(tgt, player as int, eta as nat, 1) && roi.below_whole(score) {
                Some(
                    Candidate {
                        score: score as i128,
                        src_idx: r.src,
                        tgt_idx: r.tgt,
                        ships: r.ships,
                        eta: eta as usize,
                        angle: shot.angle,
                    },
                )
            } else {
                None
            }
        },
        None => None,
    }
}

/// The candidates among the first `n` aimed launches.
pub open spec fn candidates(
    status: GarrisonStatus,
    requests: Seq<Request>,
    shots: Seq<Shot>,
    player: i64,
    roi: Double,
    n: nat,
) -> Seq<Candidate>
    decreases n,
{
    if n == 0 {
        Seq::empty()
    } else {
        let front = candidates(status, requests, shots, player, roi, (n - 1) as nat);
        match candidate(status, requests[n - 1], shots[n - 1], player, roi) {
            Some(c) => front.push(c),
            None => front,
        }
    }
}

/// The candidate goes from a planet that `player` holds, with ships that are
/// there.
pub open spec fn sound(g: GameModel, player: i64, c: Candidate) -> bool {
    &&& c.src_idx < g.planets.len()
    &&& c.tgt_idx < g.planets.len()
    &&& c.src_idx != c.tgt_idx
    &&& g.planets[c.src_idx as int].owner == player
    &&& 0 < c.ships <= g.planets[c.src_idx as int].ships
}

/// The flights of the shots end within the horizon.
pub open spec fn in_time(shots: Seq<Shot>, h: nat) -> bool {
    forall|k: int| 0 <= k < shots.len() ==> (#[trigger] shots[k]).legs@.len() <= h
}

/// The candidates among proper launches are sound.
pub proof fn lemma_candidates(
    g: GameModel,
    status: GarrisonStatus,
    requests: Seq<Request>,
    shots: Seq<Shot>,
    player: i64,
    roi: Double,
    n: nat,
)
    requires
        crate::garrison::describes(status, g),
        n <= requests.len(),
        shots.len() == requests.len(),
        in_time(shots, status.h as nat),
        forall|k: int| 0 <= k < requests.len() ==> #[trigger] proper(g, player, requests[k]),
    ensures
        forall|k: int|
            0 <= k < candidates(status, requests, shots, player, roi, n).len() ==> #[trigger] sound(
                g,
                player,
                candidates(status, requests, shots, player, roi, n)[k],
            ),
        candidates(status, requests, shots, player, roi, n).len() <= n,
    decreases n,
{
    if n > 0 {
        lemma_candidates(g, status, requests, shots, player, roi, (n - 1) as nat);
        let front = candidates(status, requests, shots, player, roi, (n - 1) as nat);
        let all = candidates(status, requests, shots, player, roi, n);
        let q = requests[n - 1];
        let shot = shots[n - 1];
        assert(proper(g, player, requests[n - 1]));
        if let Some(eta) = hits(shot, q.tgt) {
            crate::garrison::lemma_voyage_step(shot.legs@, shot.legs@.len());
            let pr = status.planets@[q.tgt as int];
            assert(pr.valid(status.h as int, status.a as nat));
            crate::forecast::lemma_after(pr.forecast(), status.a as nat, eta as nat);
        }
        assert forall|k: int| 0 <= k < all.len() implies #[trigger] sound(g, player, all[k]) by {
            if k < front.len() {
                assert(sound(g, player, front[k]));
            }
        }
    }
}

/// Works out which of the aimed launches are worth making.
pub fn weigh(
    g: &GameState,
    status: &GarrisonStatus,
    requests: &Vec<Request>,
    shots: &Vec<Shot>,
    player: i64,
    roi: Double,
) -> (r: Vec<Candidate>)
    requires
        crate::tick::manned(g@.planets),
        crate::garrison::describes(*status, g@),
        0 <= player,
        shots@.len() == requests@.len(),
        in_time(shots@, status.h as nat),
        forall|k: int| 0 <= k < requests@.len() ==> #[trigger] proper(g@, player, requests@[k]),
    ensures
        r@ == candidates(*status, requests@, shots@, player, roi, requests@.len()),
        forall|k: int| 0 <= k < r@.len() ==> #[trigger] sound(g@, player, r@[k]),
{
    let mut r: Vec<Candidate> = Vec::new();
    let mut i: usize = 0;
    while i < requests.len()
        invariant
            i <= requests@.len(),
            crate::tick::manned(g@.planets),
            crate::garrison::describes(*status, g@),
            0 <= player,
            shots@.len() == requests@.len(),
            in_time(shots@, status.h as nat),
            forall|k: int| 0 <= k < requests@.len() ==> #[trigger] proper(g@, player, requests@[k]),
            r@ == candidates(*status, requests@, shots@, player, roi, i as nat),
        decreases requests@.len() - i,
    {
        let q = requests[i];
        let shot = &shots[i];
        assert(proper(g@, player, requests@[i as int]));
        assert(shots@[i as int].legs@.len() <= status.h);
        match fleet_eta(&shot.legs) {
            Some((hit, eta)) => {
                if hit == q.tgt {
                    proof {
                        assert(hits(*shot, q.tgt) == Some(eta as int));
                        assert(g@.planets[q.src as int].owner < status.a);
                        assert(g@.planets[q.tgt as int].owner < status.a);
                        assert(status.planets@[q.src as int].valid(status.h as int, status.a as nat));
                        assert(status.planets@[q.tgt as int].valid(status.h as int, status.a as nat));
                        crate::tick::lemma_ships_part(g@.planets, q.src as int);
                        crate::flow::lemma_says(*status, q.tgt as int, eta as int);
                    }
                    let floor: i64 = capture_floor(status, q.tgt, eta, player as usize, 1);
                    if q.ships >= floor {
                        proof {
                            crate::forecast::lemma_within(
                                status.planets@[q.tgt as int].forecast(),
                                status.a as nat,
                                eta as nat,
                            );
                        }
                        let score = score_launch(status, q.src, q.tgt, q.ships, eta, player as usize);
                        if let Some(s) = score {
                            if roi.lt_whole(s) {
                                r.push(
                                    Candidate {
                                        score: s,
                                        src_idx: q.src,
                                        tgt_idx: q.tgt,
                                        ships: q.ships,
                                        eta,
                                        angle: shot.angle,
                                    },
                                );
                            }
                        }
                    }
                }
            },
            None => {},
        }
        i += 1;
    }
    proof {
        lemma_candidates(g@, *status, requests@, shots@, player, roi, requests@.len());
    }
    r
}

/// `c` is the launch `r` with its shot: the shot gets to the target before anything
/// else, at step `c.eta`; the ships are enough to hold it then; and what the launch
/// is worth exceeds `roi`.
pub open spec fn stands_for(
    status: GarrisonStatus,
    c: Candidate,
    r: Request,
    shot: Shot,
    player: i64,
    roi: Double,
) -> bool {
    let src = status.planets@[r.src as int].forecast();
    let tgt = status.planets@[r.tgt as int].forecast();
    &&& c.src_idx == r.src && c.tgt_idx == r.tgt && c.ships == r.ships && c.angle == shot.angle
    &&& crate::garrison::arrives_at(shot.legs@, r.tgt as int, c.eta as int)
    &&& if tgt.after(c.eta as nat).owner == player {
        c.ships >= 1
    } else {
        c.ships > tgt.after(c.eta as nat).ships
    }
    &&& c.score == crate::flow::launch_score(src, tgt, player as int, c.ships as int, c.eta as int, status.a as nat)
    &&& roi.below_whole(c.score as int)
}

proof fn lemma_weighed_one(g: GameModel, status: GarrisonStatus, r: Request, shot: Shot, player: i64, roi: Double)
    requires
        crate::tick::manned(g.planets),
        crate::garrison::describes(status, g),
        0 <= player,
        shot.legs@.len() <= status.h,
        proper(g, player, r),
    ensures
        match candidate(status, r, shot, player, roi) {
            Some(c) => stands_for(status, c, r, shot, player, roi),
            None => forall|c: Candidate| !#[trigger] stands_for(status, c, r, shot, player, roi),
        },
{
    let tgt = status.planets@[r.tgt as int].forecast();
    let src = status.planets@[r.src as int].forecast();
    crate::garrison::lemma_voyage(shot.legs@, shot.legs@.len());
    crate::garrison::lemma_voyage_step(shot.legs@, shot.legs@.len());
    assert(status.planets@[r.tgt as int].valid(status.h as int, status.a as nat));
    assert(status.planets@[r.src as int].valid(status.h as int, status.a as nat));
    assert(src.init.owner == player);
    crate::tick::lemma_ships_part(g.planets, r.src as int);
    match hits(shot, r.tgt) {
        Some(eta) => {
            crate::flow::lemma_score_bounds(src, tgt, player as int, r.ships as int, eta, status.a as nat);
            crate::forecast::lemma_after(tgt, status.a as nat, eta as nat);
        },
        None => {},
    }
}

/// `c` stands for one of the first `n` launches.
pub open spec fn comes_from_one(
    status: GarrisonStatus,
    c: Candidate,
    requests: Seq<Request>,
    shots: Seq<Shot>,
    player: i64,
    roi: Double,
    n: nat,
) -> bool {
    exists|k: int| 0 <= k < n && #[trigger] stands_for(status, c, requests[k], shots[k], player, roi)
}

/// Every launch that is worth making is a candidate, and no other: the candidates
/// stand for launches that were aimed, in their order.
pub proof fn lemma_weighed(
    g: GameModel,
    status: GarrisonStatus,
    requests: Seq<Request>,
    shots: Seq<Shot>,
    player: i64,
    roi: Double,
    n: nat,
)
    requires
        crate::tick::manned(g.planets),
        crate::garrison::describes(status, g),
        0 <= player,
        n <= requests.len(),
        shots.len() == requests.len(),
        in_time(shots, status.h as nat),
        forall|k: int| 0 <= k < requests.len() ==> #[trigger] proper(g, player, requests[k]),
    ensures
        ({
            let all = candidates(status, requests, shots, player, roi, n);
            &&& forall|q: int|
                0 <= q < all.len() ==> comes_from_one(status, #[trigger] all[q], requests, shots, player, roi, n)
            &&& forall|k: int, c: Candidate|
                0 <= k < n && #[trigger] stands_for(status, c, requests[k], shots[k], player, roi) ==> all.contains(c)
        }),
    decreases n,
{
    let all = candidates(status, requests, shots, player, roi, n);
    if n > 0 {
        lemma_weighed(g, status, requests, shots, player, roi, (n - 1) as nat);
        let front = candidates(status, requests, shots, player, roi, (n - 1) as nat);
        assert(proper(g, player, requests[n - 1]));
        assert(shots[n - 1].legs@.len() <= status.h);
        lemma_weighed_one(g, status, requests[n - 1], shots[n - 1], player, roi);
        assert forall|q: int| 0 <= q < all.len() implies comes_from_one(
            status,
            #[trigger] all[q],
            requests,
            shots,
            player,
            roi,
            n,
        ) by {
            if q < front.len() {
                assert(all[q] == front[q]);
                let k = choose|k: int|
                    0 <= k < n - 1 && #[trigger] stands_for(status, front[q], requests[k], shots[k], player, roi);
                assert(stands_for(status, all[q], requests[k], shots[k], player, roi));
            } else {
                assert(stands_for(status, all[q], requests[n - 1], shots[n - 1], player, roi));
            }
        }
        assert forall|k: int, c: Candidate|
            0 <= k < n && #[trigger] stands_for(status, c, requests[k], shots[k], player, roi) implies all.contains(c) by {
            if k < n - 1 {
                let q = choose|q: int| 0 <= q < front.len() && front[q] == c;
                assert(all[q] == c);
            } else {
                let d = candidate(status, requests[n - 1], shots[n - 1], player, roi)->0;
                assert(c == d);
                assert(all[front.len() as int] == d);
            }
        }
    }
}

/// The candidates by their scores.
pub open spec fn by_score(cands: Seq<Candidate>) -> Seq<Ranked> {
    Seq::new(cands.len(), |k: int| Ranked { key: cands[k].score, idx: k as usize })
}

/// The candidates, the best first; of equal ones, the one that was listed first.
pub open spec fn best_first(cands: Seq<Candidate>) -> Seq<Candidate> {
    Seq::new(cands.len(), |k: int| cands[crate::ranking::ranking(by_score(cands))[k].idx as int])
}

/// Whether planet `i` is the target of one of `picks`.
pub open spec fn is_target(picks: Seq<Candidate>, i: int) -> bool {
    exists|k: int| 0 <= k < picks.len() && (#[trigger] picks[k]).tgt_idx == i
}

/// Whether planet `i` is the source of one of `picks`.
pub open spec fn is_source(picks: Seq<Candidate>, i: int) -> bool {
    exists|k: int| 0 <= k < picks.len() && (#[trigger] picks[k]).src_idx == i
}

/// The ships that `picks` send from planet `i`.
pub open spec fn sent(picks: Seq<Candidate>, i: int) -> int
    decreases picks.len(),
{
    if picks.len() == 0 {
        0
    } else {
        sent(picks.drop_last(), i) + (if picks.last().src_idx == i {
            picks.last().ships as int
        } else {
            0
        })
    }
}

/// Whether `c` can be added to `picks`: there is room for another wave, nothing
/// goes to or from its target, its source is not being reinforced, and the ships
/// are still there.
pub open spec fn open_to(g: GameModel, player: i64, picks: Seq<Candidate>, c: Candidate, max: nat) -> bool {
    &&& picks.len() < max
    &&& !is_target(picks, c.tgt_idx as int)
    &&& !is_source(picks, c.tgt_idx as int)
    &&& !(is_target(picks, c.src_idx as int) && g.planets[c.src_idx as int].owner == player)
    &&& g.planets[c.src_idx as int].ships - sent(picks, c.src_idx as int) >= c.ships
}

/// What is picked of the first `n` of `cands`, one after the other.
pub open spec fn picked(g: GameModel, player: i64, cands: Seq<Candidate>, max: nat, n: nat) -> Seq<Candidate>
    decreases n,
{
    if n == 0 {
        Seq::empty()
    } else {
        let front = picked(g, player, cands, max, (n - 1) as nat);
        if open_to(g, player, front, cands[n - 1], max) {
            front.push(cands[n - 1])
        } else {
            front
        }
    }
}

/// What is picked of all candidates, the best first.
pub open spec fn waves(g: GameModel, player: i64, cands: Seq<Candidate>, max: nat) -> Seq<Candidate> {
    picked(g, player, best_first(cands), max, cands.len())
}

/// The order that carries out a candidate.
pub open spec fn order_of(g: GameModel, c: Candidate) -> Move {
    Move { from_id: g.planets[c.src_idx as int].id, angle: c.angle, ships: c.ships }
}

/// The orders that carry out `picks`.
pub open spec fn orders_of(g: GameModel, picks: Seq<Candidate>) -> Seq<Move> {
    Seq::new(picks.len(), |k: int| order_of(g, picks[k]))
}

/// No more picks than `max`, each of them sound; no two for one target; no
/// planet both a source and a target; and no planet sends ships that are not
/// there.
pub open spec fn consistent(g: GameModel, player: i64, picks: Seq<Candidate>, max: nat) -> bool {
    &&& picks.len() <= max
    &&& forall|k: int| 0 <= k < picks.len() ==> #[trigger] sound(g, player, picks[k])
    &&& forall|j: int, k: int|
        0 <= j < k < picks.len() ==> (#[trigger] picks[j]).tgt_idx != (#[trigger] picks[k]).tgt_idx
    &&& forall|j: int, k: int|
        0 <= j < picks.len() && 0 <= k < picks.len() ==> (#[trigger] picks[j]).src_idx != (#[trigger] picks[k]).tgt_idx
    &&& forall|i: int| 0 <= i < g.planets.len() ==> 0 <= #[trigger] sent(picks, i) <= g.planets[i].ships
}

/// Picking from sound candidates keeps the picks consistent.
pub proof fn lemma_picked(g: GameModel, player: i64, cands: Seq<Candidate>, max: nat, n: nat)
    requires
        crate::tick::manned(g.planets),
        n <= cands.len(),
        forall|k: int| 0 <= k < cands.len() ==> #[trigger] sound(g, player, cands[k]),
    ensures
        consistent(g, player, picked(g, player, cands, max, n), max),
    decreases n,
{
    if n > 0 {
        lemma_picked(g, player, cands, max, (n - 1) as nat);
        let d = picked(g, player, cands, max, (n - 1) as nat);
        let c = cands[n - 1];
        assert(sound(g, player, cands[n - 1]));
        if open_to(g, player, d, c, max) {
            let e = d.push(c);
            assert(e.drop_last() =~= d);
            assert forall|k: int| 0 <= k < e.len() implies #[trigger] sound(g, player, e[k]) by {
                if k < d.len() {
                    assert(sound(g, player, d[k]));
                }
            }
            assert forall|j: int, k: int| 0 <= j < k < e.len() implies (#[trigger] e[j]).tgt_idx != (
            #[trigger] e[k]).tgt_idx by {
                assert(e[j] == d[j]);
                if k < d.len() {
                    assert(e[k] == d[k]);
                }
            }
            assert forall|j: int, k: int| 0 <= j < e.len() && 0 <= k < e.len() implies (#[trigger] e[j]).src_idx != (
            #[trigger] e[k]).tgt_idx by {
                if j < d.len() {
                    assert(e[j] == d[j]);
                }
                if k < d.len() {
                    assert(e[k] == d[k]);
                }
            }
            assert forall|i: int| 0 <= i < g.planets.len() implies 0 <= #[trigger] sent(e, i) <= g.planets[i].ships by {
                assert(0 <= sent(d, i) <= g.planets[i].ships);
            }
        }
    } else {
        assert forall|i: int| 0 <= i < g.planets.len() implies 0 <= #[trigger] sent(
            Seq::<Candidate>::empty(),
            i,
        ) <= g.planets[i].ships by {
            assert(g.planets[i].ships >= 0);
        }
    }
}

/// The orders of consistent picks ask of each planet what the picks send from it.
pub proof fn lemma_orders_ask(g: GameModel, player: i64, picks: Seq<Candidate>, i: int)
    requires
        crate::game::distinct(g.planets),
        forall|k: int| 0 <= k < picks.len() ==> #[trigger] sound(g, player, picks[k]),
        0 <= i < g.planets.len(),
    ensures
        crate::game::asked(orders_of(g, picks), g.planets[i].id) == sent(picks, i),
    decreases picks.len(),
{
    if picks.len() > 0 {
        let front = picks.drop_last();
        let at = picks.last().src_idx as int;
        assert forall|k: int| 0 <= k < front.len() implies #[trigger] sound(g, player, front[k]) by {
            assert(sound(g, player, picks[k]));
        }
        lemma_orders_ask(g, player, front, i);
        assert(orders_of(g, picks).drop_last() =~= orders_of(g, front));
        assert(sound(g, player, picks[picks.len() - 1]));
        if at < i {
            assert(g.planets[at].id != g.planets[i].id);
        } else if i < at {
            assert(g.planets[i].id != g.planets[at].id);
        }
    }
}

/// The best candidates first are the same candidates.
pub proof fn lemma_best_first(cands: Seq<Candidate>)
    requires
        cands.len() <= usize::MAX,
    ensures
        forall|k: int| 0 <= k < cands.len() ==> cands.contains(#[trigger] best_first(cands)[k]),
        forall|k: int|
            0 <= k < cands.len() ==> (#[trigger] crate::ranking::ranking(by_score(cands))[k]).idx < cands.len(),
{
    let items = by_score(cands);
    crate::ranking::lemma_ranking(items);
    assert forall|k: int| 0 <= k < cands.len() implies (#[trigger] crate::ranking::ranking(items)[k]).idx
        < cands.len() by {
        let x = crate::ranking::ranking(items)[k];
        assert(items.contains(x));
        let j = choose|j: int| 0 <= j < items.len() && items[j] == x;
        assert(x.idx == j);
    }
    assert forall|k: int| 0 <= k < cands.len() implies cands.contains(#[trigger] best_first(cands)[k]) by {
        let at = crate::ranking::ranking(items)[k].idx;
        assert(cands[at as int] == best_first(cands)[k]);
    }
}

/// The orders picked, and the ships that they send from each planet.
pub struct Selection {
    pub moves: Vec<Move>,
    pub committed: Vec<i64>,
}

/// The ships that `picks` send from each of `n` planets.
pub open spec fn committed_by(picks: Seq<Candidate>, n: nat) -> Seq<i64> {
    Seq::new(n, |i: int| sent(picks, i) as i64)
}

proof fn lemma_pushed(picks: Seq<Candidate>, c: Candidate)
    ensures
        forall|i: int| #[trigger] is_target(picks.push(c), i) == (is_target(picks, i) || c.tgt_idx == i),
        forall|i: int| #[trigger] is_source(picks.push(c), i) == (is_source(picks, i) || c.src_idx == i),
        forall|i: int|
            #[trigger] sent(picks.push(c), i) == sent(picks, i) + (if c.src_idx == i {
                c.ships as int
            } else {
                0
            }),
{
    let e = picks.push(c);
    assert(e.drop_last() =~= picks);
    assert(e[picks.len() as int] == c);
    assert forall|i: int| #[trigger] is_target(e, i) == (is_target(picks, i) || c.tgt_idx == i) by {
        if is_target(picks, i) {
            let k = choose|k: int| 0 <= k < picks.len() && (#[trigger] picks[k]).tgt_idx == i;
            assert(e[k].tgt_idx == i);
        }
        if is_target(e, i) {
            let k = choose|k: int| 0 <= k < e.len() && (#[trigger] e[k]).tgt_idx == i;
            if k < picks.len() {
                assert(picks[k].tgt_idx == i);
            }
        }
    }
    assert forall|i: int| #[trigger] is_source(e, i) == (is_source(picks, i) || c.src_idx == i) by {
        if is_source(picks, i) {
            let k = choose|k: int| 0 <= k < picks.len() && (#[trigger] picks[k]).src_idx == i;
            assert(e[k].src_idx == i);
        }
        if is_source(e, i) {
            let k = choose|k: int| 0 <= k < e.len() && (#[trigger] e[k]).src_idx == i;
            if k < picks.len() {
                assert(picks[k].src_idx == i);
            }
        }
    }
}

/// The candidates stand in the order of their scores, the greatest first; each of them
/// is there; and of two with the same score, the one that was listed first.
pub proof fn lemma_best_first_falls(cands: Seq<Candidate>)
    requires
        cands.len() <= usize::MAX,
    ensures
        best_first(cands).len() == cands.len(),
        forall|i: int, j: int|
            0 <= i < j < cands.len() ==> (#[trigger] best_first(cands)[i]).score >= (#[trigger] best_first(cands)[j]).score,
        forall|k: int| 0 <= k < cands.len() ==> best_first(cands).contains(#[trigger] cands[k]),
        forall|i: int, j: int|
            0 <= i < j < cands.len() && (#[trigger] best_first(cands)[i]).score == (#[trigger] best_first(cands)[j]).score
                ==> exists|a: int, b: int|
                0 <= a < b < cands.len() && #[trigger] cands[a] == best_first(cands)[i] && #[trigger] cands[b]
                    == best_first(cands)[j],
{
    let items = by_score(cands);
    let r = crate::ranking::ranking(items);
    crate::ranking::lemma_ranking(items);
    crate::ranking::lemma_ranking_falls(items);
    assert forall|k: int| 0 <= k < r.len() implies (#[trigger] r[k]).idx < cands.len() && r[k].key
        == cands[r[k].idx as int].score by {
        assert(items.contains(r[k]));
        let j = choose|j: int| 0 <= j < items.len() && items[j] == r[k];
        assert(items[j].idx == j);
    }
    assert forall|i: int, j: int| 0 <= i < j < cands.len() implies (#[trigger] best_first(cands)[i]).score >= (
    #[trigger] best_first(cands)[j]).score by {
        assert(r[i].key >= r[j].key);
    }
    crate::ranking::lemma_best_apart(items, items.len());
    let list = crate::ranking::best(items, items.len());
    assert forall|i: int, j: int|
        0 <= i < j < cands.len() && (#[trigger] best_first(cands)[i]).score == (#[trigger] best_first(cands)[j]).score implies exists|
        a: int,
        b: int,
    |
        0 <= a < b < cands.len() && #[trigger] cands[a] == best_first(cands)[i] && #[trigger] cands[b]
            == best_first(cands)[j] by {
        assert(r[i].key == r[j].key);
        assert(list[i] != list[j]);
        assert(r[i].idx < r[j].idx);
        assert(cands[r[i].idx as int] == best_first(cands)[i] && cands[r[j].idx as int] == best_first(cands)[j]);
    }
    items.to_multiset_ensures();
    r.to_multiset_ensures();
    assert forall|k: int| 0 <= k < cands.len() implies best_first(cands).contains(#[trigger] cands[k]) by {
        assert(items.contains(items[k]));
        assert(items.to_multiset().count(items[k]) > 0);
        assert(r.contains(items[k]));
        let p = choose|p: int| 0 <= p < r.len() && r[p] == items[k];
        assert(best_first(cands)[p] == cands[k]);
    }
}

/// `c` cannot go with `picks`: there are `max` of them; one goes to its target, or
/// from there; one goes to its source; or too few ships are left there.
pub open spec fn shut_out(g: GameModel, picks: Seq<Candidate>, c: Candidate, max: nat) -> bool {
    ||| picks.len() >= max
    ||| exists|k: int| 0 <= k < picks.len() && (#[trigger] picks[k]).tgt_idx == c.tgt_idx
    ||| exists|k: int| 0 <= k < picks.len() && (#[trigger] picks[k]).src_idx == c.tgt_idx
    ||| exists|k: int| 0 <= k < picks.len() && (#[trigger] picks[k]).tgt_idx == c.src_idx
    ||| sent(picks, c.src_idx as int) + c.ships > g.planets[c.src_idx as int].ships
}

/// Picks that are no worse than `c` shut it out.
pub open spec fn beaten(g: GameModel, picks: Seq<Candidate>, c: Candidate, max: nat) -> bool {
    exists|n: int|
        0 <= n <= picks.len() && #[trigger] shut_out(g, picks.take(n), c, max) && forall|k: int|
            0 <= k < n ==> (#[trigger] picks[k]).score >= c.score
}

proof fn lemma_picked_part(g: GameModel, player: i64, cands: Seq<Candidate>, max: nat, m: nat, n: nat)
    requires
        m <= n,
    ensures
        picked(g, player, cands, max, m).len() <= picked(g, player, cands, max, n).len(),
        picked(g, player, cands, max, n).take(picked(g, player, cands, max, m).len() as int) == picked(
            g,
            player,
            cands,
            max,
            m,
        ),
    decreases n,
{
    let a = picked(g, player, cands, max, m);
    let b = picked(g, player, cands, max, n);
    if m < n {
        lemma_picked_part(g, player, cands, max, m, (n - 1) as nat);
        let d = picked(g, player, cands, max, (n - 1) as nat);
        assert(b.take(a.len() as int) =~= d.take(a.len() as int));
    } else {
        assert(b.take(a.len() as int) =~= a);
    }
}

proof fn lemma_picked_from(g: GameModel, player: i64, cands: Seq<Candidate>, max: nat, n: nat)
    requires
        n <= cands.len(),
    ensures
        forall|k: int|
            0 <= k < picked(g, player, cands, max, n).len() ==> cands.take(n as int).contains(
                #[trigger] picked(g, player, cands, max, n)[k],
            ),
        forall|j: int, k: int|
            (forall|x: int, y: int| 0 <= x < y < cands.len() ==> (#[trigger] cands[x]).score >= (#[trigger] cands[y]).score)
                && 0 <= j < k < picked(g, player, cands, max, n).len() ==> (#[trigger] picked(g, player, cands, max, n)[j]).score
                >= (#[trigger] picked(g, player, cands, max, n)[k]).score,
    decreases n,
{
    if n > 0 {
        lemma_picked_from(g, player, cands, max, (n - 1) as nat);
        let d = picked(g, player, cands, max, (n - 1) as nat);
        let e = picked(g, player, cands, max, n);
        assert forall|k: int| 0 <= k < e.len() implies cands.take(n as int).contains(#[trigger] e[k]) by {
            if k < d.len() {
                assert(e[k] == d[k]);
                let t = cands.take(n - 1);
                let m = choose|m: int| 0 <= m < t.len() && t[m] == d[k];
                assert(cands.take(n as int)[m] == e[k]);
            } else {
                assert(cands.take(n as int)[n - 1] == e[k]);
            }
        }
        assert forall|j: int, k: int|
            (forall|x: int, y: int| 0 <= x < y < cands.len() ==> (#[trigger] cands[x]).score >= (#[trigger] cands[y]).score)
                && 0 <= j < k < e.len() implies (#[trigger] e[j]).score >= (#[trigger] e[k]).score by {
            assert(e[j] == d[j]);
            if k < d.len() {
                assert(e[k] == d[k]);
            } else {
                assert(cands.take(n - 1).contains(d[j]));
                let t = cands.take(n - 1);
                let m = choose|m: int| 0 <= m < t.len() && t[m] == d[j];
                assert(cands[m].score >= cands[n - 1].score);
            }
        }
    }
}

/// Waves are picked greedily: they are candidates, the better ones first, and every
/// candidate that is not picked is shut out by picks that are no worse. So the best
/// candidate is picked wherever one may be.
pub proof fn lemma_waves(g: GameModel, player: i64, cands: Seq<Candidate>, max: nat)
    requires
        cands.len() <= usize::MAX,
        forall|k: int| 0 <= k < cands.len() ==> #[trigger] sound(g, player, cands[k]),
    ensures
        ({
            let w = waves(g, player, cands, max);
            &&& w.len() <= max
            &&& forall|k: int| 0 <= k < w.len() ==> cands.contains(#[trigger] w[k])
            &&& forall|j: int, k: int| 0 <= j < k < w.len() ==> (#[trigger] w[j]).score >= (#[trigger] w[k]).score
            &&& forall|k: int| 0 <= k < cands.len() ==> w.contains(#[trigger] cands[k]) || beaten(g, w, cands[k], max)
        }),
{
    let line = best_first(cands);
    let w = waves(g, player, cands, max);
    lemma_best_first(cands);
    lemma_best_first_falls(cands);
    lemma_picked_from(g, player, line, max, cands.len());
    lemma_picked_most(g, player, line, max, cands.len());
    assert forall|k: int| 0 <= k < w.len() implies cands.contains(#[trigger] w[k]) by {
        assert(line.take(cands.len() as int).contains(w[k]));
        let t = line.take(cands.len() as int);
        let m = choose|m: int| 0 <= m < t.len() && t[m] == w[k];
        assert(cands.contains(line[m]));
    }
    assert forall|k: int| 0 <= k < cands.len() implies w.contains(#[trigger] cands[k]) || beaten(g, w, cands[k], max) by {
        let c = cands[k];
        assert(line.contains(c));
        let m = choose|m: int| 0 <= m < line.len() && line[m] == c;
        let d = picked(g, player, line, max, m as nat);
        let e = picked(g, player, line, max, (m + 1) as nat);
        lemma_picked_part(g, player, line, max, m as nat, cands.len());
        lemma_picked_part(g, player, line, max, (m + 1) as nat, cands.len());
        if open_to(g, player, d, c, max) {
            assert(e[d.len() as int] == c);
            assert(w.take(e.len() as int)[d.len() as int] == c);
            assert(w[d.len() as int] == c);
        } else {
            assert(sound(g, player, cands[k]));
            assert(shut_out(g, d, c, max));
            assert(shut_out(g, w.take(d.len() as int), c, max));
            lemma_picked_from(g, player, line, max, m as nat);
            assert forall|j: int| 0 <= j < d.len() implies (#[trigger] w[j]).score >= c.score by {
                assert(w[j] == w.take(d.len() as int)[j]);
                assert(line.take(m).contains(d[j]));
                let t = line.take(m);
                let x = choose|x: int| 0 <= x < t.len() && t[x] == d[j];
                assert(line[x].score >= line[m].score);
            }
            assert(beaten(g, w, c, max));
        }
    }
}

proof fn lemma_picked_most(g: GameModel, player: i64, cands: Seq<Candidate>, max: nat, n: nat)
    ensures
        picked(g, player, cands, max, n).len() <= max,
    decreases n,
{
    if n > 0 {
        lemma_picked_most(g, player, cands, max, (n - 1) as nat);
    }
}

/// Picks at most `max` of the candidates, the best first: one for each target,
/// and none that goes from a planet being reinforced or to a planet that sends.
pub fn select_waves(g: &GameState, player: i64, cands: &Vec<Candidate>, max: usize) -> (s: Selection)
    requires
        crate::tick::manned(g@.planets),
        forall|k: int| 0 <= k < cands@.len() ==> #[trigger] sound(g@, player, cands@[k]),
    ensures
        s.moves@ == orders_of(g@, waves(g@, player, cands@, max as nat)),
        s.committed@ == committed_by(waves(g@, player, cands@, max as nat), g@.planets.len()),
        consistent(g@, player, waves(g@, player, cands@, max as nat), max as nat),
        forall|i: int| 0 <= i < g@.planets.len() ==> 0 <= #[trigger] s.committed@[i] <= g@.planets[i].ships,
        s.moves@.len() <= max,
        ({
            let picks = waves(g@, player, cands@, max as nat);
            &&& s.moves@.len() == picks.len()
            &&& forall|k: int|
                0 <= k < picks.len() ==> (#[trigger] s.moves@[k]).from_id == g@.planets[picks[k].src_idx as int].id
                    && s.moves@[k].angle == picks[k].angle && s.moves@[k].ships == picks[k].ships
        }),
{
    let n: usize = g.planets.len();
    let total: usize = cands.len();
    let mut items: Vec<Ranked> = Vec::new();
    while items.len() < total
        invariant
            items@.len() <= total,
            total == cands@.len(),
            items@ =~= by_score(cands@).take(items@.len() as int),
        decreases total - items@.len(),
    {
        let k: usize = items.len();
        items.push(Ranked { key: cands[k].score, idx: k });
    }
    assert(items@ =~= by_score(cands@));
    let ranked = crate::ranking::rank(&items);
    let ghost line = best_first(cands@);
    proof {
        crate::ranking::lemma_ranking(items@);
        lemma_best_first(cands@);
        assert forall|k: int| 0 <= k < line.len() implies #[trigger] sound(g@, player, line[k]) by {
            assert(cands@.contains(line[k]));
            let j = choose|j: int| 0 <= j < cands@.len() && cands@[j] == line[k];
            assert(sound(g@, player, cands@[j]));
        }
    }
    let mut committed: Vec<i64> = Vec::new();
    let mut taken: Vec<bool> = Vec::new();
    let mut used: Vec<bool> = Vec::new();
    while committed.len() < n
        invariant
            committed@.len() <= n,
            taken@.len() == committed@.len(),
            used@.len() == committed@.len(),
            forall|i: int| 0 <= i < committed@.len() ==> #[trigger] committed@[i] == 0,
            forall|i: int| 0 <= i < taken@.len() ==> #[trigger] taken@[i] == false,
            forall|i: int| 0 <= i < used@.len() ==> #[trigger] used@[i] == false,
        decreases n - committed@.len(),
    {
        committed.push(0);
        taken.push(false);
        used.push(false);
    }
    let mut moves: Vec<Move> = Vec::new();
    let ghost mut picks = Seq::<Candidate>::empty();
    let mut k: usize = 0;
    while k < total
        invariant
            k <= total,
            total == cands@.len(),
            n == g@.planets.len(),
            crate::tick::manned(g@.planets),
            line == best_first(cands@),
            ranked@ == crate::ranking::ranking(by_score(cands@)),
            ranked@.len() == total,
            forall|j: int| 0 <= j < ranked@.len() ==> (#[trigger] ranked@[j]).idx < total,
            forall|j: int| 0 <= j < line.len() ==> #[trigger] sound(g@, player, line[j]),
            picks == picked(g@, player, line, max as nat, k as nat),
            consistent(g@, player, picks, max as nat),
            committed@.len() == n,
            taken@.len() == n,
            used@.len() == n,
            forall|i: int| 0 <= i < n ==> #[trigger] committed@[i] == sent(picks, i),
            forall|i: int| 0 <= i < n ==> #[trigger] taken@[i] == is_target(picks, i),
            forall|i: int| 0 <= i < n ==> #[trigger] used@[i] == is_source(picks, i),
            moves@ == orders_of(g@, picks),
        decreases total - k,
    {
        let ghost before = picks;
        assert(ranked@[k as int].idx < total);
        let c = cands[ranked[k].idx];
        assert(c == line[k as int]);
        assert(sound(g@, player, line[k as int]));
        proof {
            lemma_picked(g@, player, line, max as nat, (k + 1) as nat);
            assert(committed@[c.src_idx as int] == sent(picks, c.src_idx as int));
            assert(taken@[c.tgt_idx as int] == is_target(picks, c.tgt_idx as int));
            assert(used@[c.tgt_idx as int] == is_source(picks, c.tgt_idx as int));
            assert(taken@[c.src_idx as int] == is_target(picks, c.src_idx as int));
            assert(0 <= sent(picks, c.src_idx as int) <= g@.planets[c.src_idx as int].ships);
        }
        let here: i64 = g.planets[c.src_idx].ships - committed[c.src_idx];
        if moves.len() < max && !taken[c.tgt_idx] && !used[c.tgt_idx] && !taken[c.src_idx] && here >= c.ships {
            let more: i64 = committed[c.src_idx] + c.ships;
            committed[c.src_idx] = more;
            taken[c.tgt_idx] = true;
            used[c.src_idx] = true;
            let from_id: i64 = g.planets[c.src_idx].id;
            moves.push(Move { from_id, angle: c.angle, ships: c.ships });
            proof {
                picks = picks.push(c);
                lemma_pushed(before, c);
                assert(moves@ =~= orders_of(g@, picks));
            }
        }
        k += 1;
    }
    assert(committed@ =~= committed_by(picks, g@.planets.len()));
    assert forall|i: int| 0 <= i < n implies 0 <= #[trigger] committed@[i] <= g@.planets[i].ships by {
        assert(0 <= sent(picks, i) <= g@.planets[i].ships);
    }
    Selection { moves, committed }
}

} // verus!
