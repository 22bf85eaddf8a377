//! A whole tick, from one state of the game to the next.
//!
//! A tick is three calls: `open_tick`, `advance` and `resolve_tick`. Between
//! them the caller computes the positions that depend on the last call.

use crate::double::Point;
use crate::engine::{expire_comets, has_numbers, is_spawn_tick, launch_fleets, produce, spawn_comets, Order};
use crate::motion::{plan_planets, PlanetMotion};
use crate::state::{Fleet, GameState, Move, Planet, SpawnInjection};
use crate::tick::FleetMove;
use vstd::prelude::*;

verus! {

use crate::state::{GameModel, GroupModel};

/// Comets to spawn, as a value of the model.
#[verifier::ext_equal]
pub struct SpawnModel {
    pub ships: i64,
    pub paths: Seq<Seq<Point>>,
}

impl View for SpawnInjection {
    type V = SpawnModel;

    open spec fn view(&self) -> SpawnModel {
        SpawnModel { ships: self.ships, paths: crate::state::paths_model(self.paths@) }
    }
}

pub open spec fn spawn_model(spawn: Option<SpawnInjection>) -> Option<SpawnModel> {
    match spawn {
        Some(s) => Some(s@),
        None => None,
    }
}

/// The game at the start of the tick of `cur_step`, once comets at the end of
/// their path are gone and, where it is time, new ones are there.
pub open spec fn opened(g: GameModel, cur_step: i64, spawn: Option<SpawnModel>) -> GameModel {
    let left = crate::engine::after_expiry(g);
    match spawn {
        Some(s) => if crate::engine::spawn_due(cur_step) {
            crate::engine::with_comets(left, s.paths, s.ships)
        } else {
            left
        },
        None => left,
    }
}

/// `w` is `g` without the comets at the end of their path and, in the steps that are 50
/// past a hundred, up to 450, with a group of comets more, one on each path of `spawn`.
pub open spec fn opens_to(g: GameModel, w: GameModel, cur_step: i64, spawn: Option<SpawnModel>) -> bool {
    let left = g.planets.filter(|p: Planet| !crate::engine::at_end(g.comets, p.id));
    let due = 0 <= cur_step < 500 && (cur_step + 1) % 100 == 50;
    &&& left.is_prefix_of(w.planets)
    &&& !due || spawn is None ==> w.planets == left
    &&& due ==> (spawn matches Some(s) ==> w.planets.len() == left.len() + s.paths.len() && w.comets.len() > 0
        && w.comets.last().paths == s.paths && w.comets.last().path_index == -1)
    &&& w.fleets == g.fleets
    &&& w.next_fleet_id == g.next_fleet_id
    &&& w.angular_velocity == g.angular_velocity
}

/// A tick starts with the comets at the end of their path gone, and with new ones
/// where it is time for them.
pub proof fn lemma_opens_to(g: GameModel, cur_step: i64, spawn: Option<SpawnModel>)
    ensures
        opens_to(g, opened(g, cur_step, spawn), cur_step, spawn),
{
    crate::engine::lemma_after_expiry(g);
    crate::engine::lemma_spawn_due(cur_step);
    let left = crate::engine::after_expiry(g).planets;
    let w = opened(g, cur_step, spawn);
    assert(w.planets.subrange(0, left.len() as int) =~= left);
}

/// Whether the comets of `spawn` can be numbered in the tick of `cur_step`.
pub open spec fn spawn_fits(g: GameModel, cur_step: i64, spawn: Option<SpawnModel>) -> bool {
    match spawn {
        Some(s) => crate::engine::spawn_due(cur_step) ==> crate::engine::can_number(g, s.paths.len()) && s.ships >= 0,
        None => true,
    }
}

/// Whether the comets of `spawn` can be numbered in the tick of `cur_step`.
pub fn is_spawn_ready(g: &GameState, cur_step: i64, spawn: &Option<SpawnInjection>) -> (r: bool)
    requires
        g@.guided(),
    ensures
        r == spawn_fits(g@, cur_step, spawn_model(*spawn)),
{
    match spawn {
        Some(s) => {
            assert(crate::state::paths_model(s.paths@).len() == s.paths@.len());
            !is_spawn_tick(cur_step) || (has_numbers(g, s.paths.len()) && s.ships >= 0)
        },
        None => true,
    }
}

/// Starts the tick of `cur_step`: removes the comets at the end of their path,
/// and adds those of `spawn` where it is time for them.
pub fn open_tick(g: &mut GameState, cur_step: i64, spawn: Option<SpawnInjection>)
    requires
        old(g)@.valid(),
        spawn_fits(old(g)@, cur_step, spawn_model(spawn)),
    ensures
        final(g)@ == opened(old(g)@, cur_step, spawn_model(spawn)),
        final(g)@.valid(),
        opens_to(old(g)@, final(g)@, cur_step, spawn_model(spawn)),
{
    proof {
        lemma_opens_to(g@, cur_step, spawn_model(spawn));
    }
    expire_comets(g);
    if is_spawn_tick(cur_step) {
        if let Some(s) = spawn {
            assert(crate::state::paths_model(s.paths@).len() == s.paths@.len());
            spawn_comets(g, s);
        }
    }
}

/// The game once the orders are carried out and planets have produced.
pub open spec fn supplied(g: GameModel, actions: Seq<Vec<Order>>) -> GameModel {
    let l = crate::engine::after_launch(g, actions);
    GameModel { planets: crate::engine::after_production(l.planets), ..l }
}

/// An order moves ships from a planet to a fleet: their number stays, and so do
/// the owners of the planets and what they produce.
pub proof fn lemma_launched(g: GameModel, player: i64, o: Order)
    requires
        g.valid(),
    ensures
        crate::engine::launched(g, player, o).ships_in_play() == g.ships_in_play(),
        same_holdings(g.planets, crate::engine::launched(g, player, o).planets),
        crate::engine::launched(g, player, o).comets == g.comets,
        crate::engine::launched(g, player, o).initial_planets == g.initial_planets,
        crate::engine::launched(g, player, o).comet_planet_ids == g.comet_planet_ids,
{
    crate::state::lemma_planet_index(g.planets, o.from_id);
    if let Some(i) = crate::state::planet_index(g.planets, o.from_id) {
        if crate::engine::may_launch(g.planets[i], player, o) {
            let w = crate::engine::launched(g, player, o);
            crate::tick::lemma_ships_update(g.planets, i, w.planets[i]);
            assert(w.fleets.drop_last() =~= g.fleets);
        }
    }
}

/// An order that the player may not give changes nothing: one from a planet that
/// the player does not hold, one with more ships than are there, or one without
/// ships.
pub proof fn lemma_refused(g: GameModel, player: i64, o: Order)
    requires
        forall|i: int|
            0 <= i < g.planets.len() && (#[trigger] g.planets[i]).id == o.from_id ==> g.planets[i].owner != player
                || g.planets[i].ships < o.ships || o.ships <= 0,
    ensures
        crate::engine::launched(g, player, o) == g,
{
    crate::state::lemma_planet_index(g.planets, o.from_id);
}

/// The same planets in the same places, with the same owners and production.
pub open spec fn same_holdings(a: Seq<Planet>, b: Seq<Planet>) -> bool {
    &&& a.len() == b.len()
    &&& forall|i: int|
        0 <= i < a.len() ==> (#[trigger] b[i]) == (Planet { ships: b[i].ships, ..a[i] })
}

/// Orders move ships, and neither make nor lose any.
pub proof fn lemma_launched_all(g: GameModel, player: i64, orders: Seq<Order>)
    requires
        g.valid(),
    ensures
        ({
            let l = crate::engine::launched_all(g, player, orders);
            &&& l.valid()
            &&& l.ships_in_play() == g.ships_in_play()
            &&& same_holdings(g.planets, l.planets)
            &&& l.comets == g.comets
            &&& l.initial_planets == g.initial_planets
            &&& l.comet_planet_ids == g.comet_planet_ids
        }),
    decreases orders.len(),
{
    if orders.len() > 0 {
        lemma_launched_all(g, player, orders.drop_last());
        let front = crate::engine::launched_all(g, player, orders.drop_last());
        lemma_launched(front, player, orders.last());
        crate::engine::lemma_launched_valid(front, player, orders.last());
        let l = crate::engine::launched_all(g, player, orders);
        assert forall|i: int| 0 <= i < g.planets.len() implies (#[trigger] l.planets[i]) == (Planet {
            ships: l.planets[i].ships,
            ..g.planets[i]
        }) by {
            assert(front.planets[i] == (Planet { ships: front.planets[i].ships, ..g.planets[i] }));
        }
    }
}

/// The orders of all players move ships, and neither make nor lose any.
pub proof fn lemma_after_launch(g: GameModel, actions: Seq<Vec<Order>>)
    requires
        g.valid(),
    ensures
        ({
            let l = crate::engine::after_launch(g, actions);
            &&& l.valid()
            &&& l.ships_in_play() == g.ships_in_play()
            &&& same_holdings(g.planets, l.planets)
            &&& l.comets == g.comets
            &&& l.initial_planets == g.initial_planets
            &&& l.comet_planet_ids == g.comet_planet_ids
        }),
    decreases actions.len(),
{
    if actions.len() > 0 {
        lemma_after_launch(g, actions.drop_last());
        let front = crate::engine::after_launch(g, actions.drop_last());
        lemma_launched_all(front, (actions.len() - 1) as i64, actions.last()@);
        let l = crate::engine::after_launch(g, actions);
        assert forall|i: int| 0 <= i < g.planets.len() implies (#[trigger] l.planets[i]) == (Planet {
            ships: l.planets[i].ships,
            ..g.planets[i]
        }) by {
            assert(front.planets[i] == (Planet { ships: front.planets[i].ships, ..g.planets[i] }));
        }
    }
}

proof fn lemma_same_production(a: Seq<Planet>, b: Seq<Planet>)
    requires
        same_holdings(a, b),
    ensures
        crate::state::held_production(a) == crate::state::held_production(b),
    decreases a.len(),
{
    if a.len() > 0 {
        let (fa, fb) = (a.drop_last(), b.drop_last());
        assert forall|i: int| 0 <= i < fa.len() implies (#[trigger] fb[i]) == (Planet { ships: fb[i].ships, ..fa[i] }) by {
            assert(b[i] == (Planet { ships: b[i].ships, ..a[i] }));
        }
        lemma_same_production(fa, fb);
        assert(b[b.len() - 1] == (Planet { ships: b[b.len() - 1].ships, ..a[a.len() - 1] }));
    }
}

proof fn lemma_production_part(planets: Seq<Planet>, i: int)
    requires
        crate::tick::manned(planets),
        forall|k: int| 0 <= k < planets.len() ==> (#[trigger] planets[k]).production >= 0,
        0 <= i < planets.len(),
    ensures
        planets[i].owner != -1 ==> planets[i].ships + planets[i].production <= crate::state::planet_ships(planets)
            + crate::state::held_production(planets),
        crate::state::planet_ships(planets) >= 0,
        crate::state::held_production(planets) >= 0,
    decreases planets.len(),
{
    let front = planets.drop_last();
    assert forall|k: int| 0 <= k < front.len() implies (#[trigger] front[k]).ships >= 0 && front[k].production >= 0 by {
        assert(front[k] == planets[k]);
    }
    assert(planets[planets.len() - 1].ships >= 0);
    if front.len() > 0 {
        lemma_production_part(front, if i < front.len() {
            i
        } else {
            0
        });
    } else {
        assert(crate::state::planet_ships(front) == 0);
        assert(crate::state::held_production(front) == 0);
    }
}

/// Production adds what the held planets make.
pub proof fn lemma_after_production(planets: Seq<Planet>)
    requires
        forall|i: int|
            0 <= i < planets.len() && (#[trigger] planets[i]).owner != -1 ==> i64::MIN <= planets[i].ships
                + planets[i].production <= i64::MAX,
    ensures
        crate::state::planet_ships(crate::engine::after_production(planets)) == crate::state::planet_ships(planets)
            + crate::state::held_production(planets),
    decreases planets.len(),
{
    if planets.len() > 0 {
        let front = planets.drop_last();
        assert forall|i: int| 0 <= i < front.len() && (#[trigger] front[i]).owner != -1 implies i64::MIN
            <= front[i].ships + front[i].production <= i64::MAX by {
            assert(front[i] == planets[i]);
        }
        lemma_after_production(front);
        assert(crate::engine::after_production(planets).drop_last() =~= crate::engine::after_production(front));
        assert(planets[planets.len() - 1] == planets.last());
    }
}

/// Every planet that somebody holds still has what it makes in a tick.
pub open spec fn unspent(planets: Seq<Planet>) -> bool {
    forall|i: int|
        0 <= i < planets.len() && (#[trigger] planets[i]).owner != -1 ==> planets[i].ships >= planets[i].production
}

/// Orders and production give a valid game whose ships have grown by what the
/// held planets make. What a planet makes in a tick cannot be sent off in that tick.
pub proof fn lemma_supplied(g: GameModel, actions: Seq<Vec<Order>>)
    requires
        g.valid(),
        g.ships_in_play() + crate::state::held_production(g.planets) <= i64::MAX,
    ensures
        supplied(g, actions).valid(),
        supplied(g, actions).ships_in_play() == g.ships_in_play() + crate::state::held_production(g.planets),
        unspent(supplied(g, actions).planets),
        forall|i: int|
            0 <= i < g.planets.len() && (#[trigger] crate::engine::after_launch(g, actions).planets[i]).owner != -1
                ==> crate::engine::after_launch(g, actions).planets[i].ships + crate::engine::after_launch(
                g,
                actions,
            ).planets[i].production <= i64::MAX,
{
    let l = crate::engine::after_launch(g, actions);
    lemma_after_launch(g, actions);
    lemma_same_production(g.planets, l.planets);
    crate::tick::lemma_flying(l.fleets, 0);
    assert(crate::tick::manned(l.planets));
    assert forall|i: int| 0 <= i < l.planets.len() && (#[trigger] l.planets[i]).owner != -1 implies 0
        <= l.planets[i].ships + l.planets[i].production <= i64::MAX by {
        lemma_production_part(l.planets, i);
    }
    lemma_after_production(l.planets);
    let s = supplied(g, actions);
    assert forall|i: int| 0 <= i < s.planets.len() implies (#[trigger] s.planets[i]).ships >= 0
        && s.planets[i].production >= 0 && s.planets[i].id == s.initial_planets[i].id by {
        assert(l.planets[i].ships >= 0);
        assert(l.planets[i].id == l.initial_planets[i].id);
    }
}

/// Carries out the orders of all players, lets the planets produce, moves the
/// comets along, and gives the ways of the planets. `drift[i]` is where planet
/// `i` is at the end of the tick, if it is no comet.
pub fn advance(g: &mut GameState, actions: &Vec<Vec<Order>>, drift: &Vec<Point>) -> (m: PlanetMotion)
    requires
        old(g)@.valid(),
        old(g)@.next_fleet_id + crate::engine::order_count(actions@) <= i64::MAX,
        can_go_on(old(g)@),
        drift@.len() == old(g)@.planets.len(),
    ensures
        final(g)@ == crate::motion::comets_stepped(supplied(old(g)@, actions@)),
        final(g)@.valid(),
        final(g)@.ships_in_play() <= i64::MAX,
        final(g)@.ships_in_play() == old(g)@.ships_in_play() + crate::state::held_production(old(g)@.planets),
        unspent(final(g)@.planets),
        m@ == crate::motion::planned(supplied(old(g)@, actions@), drift@),
        crate::motion::starts_right(final(g)@.planets, m@),
{
    let ghost start = g@;
    proof {
        lemma_supplied(start, actions@);
        lemma_after_launch(start, actions@);
    }
    launch_fleets(g, actions);
    produce(g);
    proof {
        crate::motion::lemma_planned(g@, drift@);
    }
    plan_planets(g, drift)
}

/// The game after the tick of `cur_step`, where `drift` and `moves` say where
/// planets and fleets go.
pub open spec fn ticked(
    g: GameModel,
    cur_step: i64,
    spawn: Option<SpawnModel>,
    actions: Seq<Vec<Order>>,
    drift: Seq<Point>,
    moves: Seq<FleetMove>,
) -> GameModel {
    let s = supplied(opened(g, cur_step, spawn), actions);
    crate::tick::resolved(crate::motion::comets_stepped(s), crate::motion::planned(s, drift), moves)
}

/// Ships that the comets of `spawn` bring in the tick of `cur_step`.
pub open spec fn spawned_ships(cur_step: i64, spawn: Option<SpawnModel>) -> int {
    match spawn {
        Some(s) => if crate::engine::spawn_due(cur_step) {
            s.paths.len() * s.ships
        } else {
            0
        },
        None => 0,
    }
}

proof fn lemma_new_comet_ships(planets: Seq<Planet>, fresh: Seq<Planet>, ships: i64)
    requires
        forall|i: int| 0 <= i < fresh.len() ==> (#[trigger] fresh[i]).ships == ships && fresh[i].owner == -1,
    ensures
        crate::state::planet_ships(planets + fresh) == crate::state::planet_ships(planets) + fresh.len() * ships,
        crate::state::held_production(planets + fresh) == crate::state::held_production(planets),
    decreases fresh.len(),
{
    if fresh.len() > 0 {
        let front = fresh.drop_last();
        assert forall|i: int| 0 <= i < front.len() implies (#[trigger] front[i]).ships == ships && front[i].owner
            == -1 by {
            assert(front[i] == fresh[i]);
        }
        lemma_new_comet_ships(planets, front, ships);
        assert((planets + fresh).drop_last() =~= planets + front);
        assert((planets + fresh).last() == fresh[fresh.len() - 1]);
        assert(fresh.len() * ships == (fresh.len() - 1) * ships + ships) by (nonlinear_arith);
    } else {
        assert(planets + fresh =~= planets);
    }
}

proof fn lemma_kept_production(planets: Seq<Planet>, gone: Seq<i64>)
    requires
        forall|i: int| 0 <= i < planets.len() ==> (#[trigger] planets[i]).production >= 0,
    ensures
        crate::state::held_production(crate::engine::kept_planets(planets, gone)) <= crate::state::held_production(
            planets,
        ),
    decreases planets.len(),
{
    if planets.len() > 0 {
        let front = planets.drop_last();
        assert forall|k: int| 0 <= k < front.len() implies (#[trigger] front[k]).production >= 0 by {
            assert(front[k] == planets[k]);
        }
        lemma_kept_production(front, gone);
        assert(planets[planets.len() - 1].production >= 0);
        let kept = crate::engine::kept_planets(front, gone);
        assert(kept.push(planets.last()).drop_last() =~= kept);
    }
}

/// Opening a tick keeps the game valid, adds no ships but those of the new
/// comets, and no production.
pub proof fn lemma_opened(g: GameModel, cur_step: i64, spawn: Option<SpawnModel>)
    requires
        g.valid(),
        spawn_fits(g, cur_step, spawn),
    ensures
        opened(g, cur_step, spawn).valid(),
        opened(g, cur_step, spawn).ships_in_play() <= g.ships_in_play() + spawned_ships(cur_step, spawn),
        crate::state::held_production(opened(g, cur_step, spawn).planets) <= crate::state::held_production(g.planets),
{
    let gone = crate::engine::expired_ids(g.comets);
    let left = crate::engine::after_expiry(g);
    crate::engine::lemma_without_valid(g, gone);
    assert(crate::tick::manned(g.planets));
    crate::tick::lemma_kept_ships(g.planets, gone);
    lemma_kept_production(g.planets, gone);
    if let Some(s) = spawn {
        if crate::engine::spawn_due(cur_step) {
            crate::engine::lemma_with_comets_valid(left, s.paths, s.ships);
            lemma_new_comet_ships(
                left.planets,
                crate::engine::new_comets(left.planets, s.paths.len(), s.ships),
                s.ships,
            );
        }
    }
}

/// A tick keeps the game valid, and its ships grow by no more than the held
/// planets make and new comets bring.
pub proof fn lemma_ticked(
    g: GameModel,
    cur_step: i64,
    spawn: Option<SpawnModel>,
    actions: Seq<Vec<Order>>,
    drift: Seq<Point>,
    moves: Seq<FleetMove>,
)
    requires
        g.valid(),
        spawn_fits(g, cur_step, spawn),
        g.ships_in_play() + spawned_ships(cur_step, spawn) + crate::state::held_production(g.planets) <= i64::MAX,
    ensures
        ticked(g, cur_step, spawn, actions, drift, moves).valid(),
        ticked(g, cur_step, spawn, actions, drift, moves).ships_in_play() <= g.ships_in_play() + spawned_ships(
            cur_step,
            spawn,
        ) + crate::state::held_production(g.planets),
{
    let o = opened(g, cur_step, spawn);
    let s = supplied(o, actions);
    let c = crate::motion::comets_stepped(s);
    lemma_opened(g, cur_step, spawn);
    lemma_supplied(o, actions);
    crate::motion::lemma_planned(s, drift);
    assert forall|i: int| 0 <= i < c.comets.len() implies (#[trigger] c.comets[i]).valid() by {
        assert(s.comets[i].valid());
    }
    assert(c.valid());
    crate::tick::lemma_resolved(c, crate::motion::planned(s, drift), moves);
}

/// No two planets share an id.
pub open spec fn distinct(planets: Seq<Planet>) -> bool {
    forall|i: int, j: int| 0 <= i < j < planets.len() ==> (#[trigger] planets[i]).id != (#[trigger] planets[j]).id
}

proof fn lemma_kept_distinct(planets: Seq<Planet>, gone: Seq<i64>)
    requires
        distinct(planets),
    ensures
        distinct(crate::engine::kept_planets(planets, gone)),
    decreases planets.len(),
{
    if planets.len() > 0 {
        let front = planets.drop_last();
        assert forall|i: int, j: int| 0 <= i < j < front.len() implies (#[trigger] front[i]).id != (
        #[trigger] front[j]).id by {
            assert(front[i] == planets[i] && front[j] == planets[j]);
        }
        lemma_kept_distinct(front, gone);
        crate::engine::lemma_kept_from(front, gone);
        let kept = crate::engine::kept_planets(front, gone);
        let all = crate::engine::kept_planets(planets, gone);
        assert forall|i: int, j: int| 0 <= i < j < all.len() implies (#[trigger] all[i]).id != (#[trigger] all[j]).id by {
            assert(all[i] == kept[i]);
            assert(front.contains(kept[i]));
            let k = choose|k: int| 0 <= k < front.len() && front[k] == kept[i];
            assert(planets[k] == kept[i]);
            if j < kept.len() {
                assert(all[j] == kept[j]);
            } else {
                assert(all[j] == planets[planets.len() - 1]);
            }
        }
    }
}

proof fn lemma_max_id(planets: Seq<Planet>)
    ensures
        forall|i: int| 0 <= i < planets.len() ==> (#[trigger] planets[i]).id <= crate::engine::max_id(planets),
    decreases planets.len(),
{
    if planets.len() > 1 {
        let front = planets.drop_last();
        lemma_max_id(front);
        assert forall|i: int| 0 <= i < planets.len() implies (#[trigger] planets[i]).id <= crate::engine::max_id(
            planets,
        ) by {
            if i < front.len() {
                assert(front[i] == planets[i]);
            }
        }
    }
}

/// Where no two planets share an id, none do after the tick: new comets get
/// ids that are not in use.
pub proof fn lemma_ticked_distinct(
    g: GameModel,
    cur_step: i64,
    spawn: Option<SpawnModel>,
    actions: Seq<Vec<Order>>,
    drift: Seq<Point>,
    moves: Seq<FleetMove>,
)
    requires
        g.valid(),
        spawn_fits(g, cur_step, spawn),
        g.ships_in_play() + spawned_ships(cur_step, spawn) + crate::state::held_production(g.planets) <= i64::MAX,
        distinct(g.planets),
    ensures
        distinct(ticked(g, cur_step, spawn, actions, drift, moves).planets),
{
    let gone = crate::engine::expired_ids(g.comets);
    let left = crate::engine::after_expiry(g);
    lemma_kept_distinct(g.planets, gone);
    let o = opened(g, cur_step, spawn);
    lemma_opened(g, cur_step, spawn);
    lemma_max_id(left.planets);
    assert(distinct(o.planets)) by {
        if let Some(s) = spawn {
            if crate::engine::spawn_due(cur_step) {
                let fresh = crate::engine::new_comets(left.planets, s.paths.len(), s.ships);
                assert forall|i: int, j: int| 0 <= i < j < o.planets.len() implies (#[trigger] o.planets[i]).id != (
                #[trigger] o.planets[j]).id by {
                    let n = left.planets.len() as int;
                    if i < n {
                        assert(o.planets[i] == left.planets[i]);
                        assert(left.planets[i].id <= crate::engine::max_id(left.planets));
                    } else {
                        assert(o.planets[i] == fresh[i - n]);
                    }
                    if j < n {
                        assert(o.planets[j] == left.planets[j]);
                    } else {
                        assert(o.planets[j] == fresh[j - n]);
                        assert(fresh[j - n].id == crate::engine::max_id(left.planets) + 1 + (j - n));
                    }
                }
            }
        }
    }
    lemma_supplied(o, actions);
    lemma_after_launch(o, actions);
    let s = supplied(o, actions);
    let c = crate::motion::comets_stepped(s);
    let m = crate::motion::planned(s, drift);
    crate::motion::lemma_planned(s, drift);
    assert forall|i: int| 0 <= i < c.comets.len() implies (#[trigger] c.comets[i]).valid() by {
        assert(s.comets[i].valid());
    }
    assert(c.valid());
    let l = crate::engine::after_launch(o, actions);
    assert forall|i: int| 0 <= i < o.planets.len() implies (#[trigger] s.planets[i]).id == o.planets[i].id by {
        assert(l.planets[i] == (Planet { ships: l.planets[i].ships, ..o.planets[i] }));
    }
    let moved = crate::tick::moved(c.planets, m.paths);
    assert(distinct(moved)) by {
        assert forall|i: int, j: int| 0 <= i < j < moved.len() implies (#[trigger] moved[i]).id != (
        #[trigger] moved[j]).id by {
            assert(s.planets[i].id == o.planets[i].id);
            assert(s.planets[j].id == o.planets[j].id);
        }
    }
    lemma_kept_distinct(moved, m.expired);
    let there = crate::tick::planets_moved(c, m);
    crate::tick::lemma_planets_moved(c, m);
    crate::tick::lemma_flights_add_up(c.fleets, moves, m.paths);
    crate::tick::lemma_flying(crate::tick::still_flying(c.fleets, moves, m.paths), 0);
    assert(crate::tick::manned(there.planets));
    let lists = crate::tick::landings(c.fleets, moves, m.paths);
    crate::tick::lemma_battles(there.planets, crate::tick::ids_of(c.planets), lists, c.planets.len());
    let r = ticked(g, cur_step, spawn, actions, drift, moves);
    assert forall|i: int, j: int| 0 <= i < j < r.planets.len() implies (#[trigger] r.planets[i]).id != (
    #[trigger] r.planets[j]).id by {
        assert(r.planets[i].id == there.planets[i].id);
        assert(r.planets[j].id == there.planets[j].id);
    }
}

/// What the orders say, without the points at which their fleets start out.
pub open spec fn said(orders: Seq<Order>) -> Seq<Move> {
    Seq::new(
        orders.len(),
        |k: int| Move { from_id: orders[k].from_id, angle: orders[k].angle, ships: orders[k].ships },
    )
}

/// Ships that the moves ask of the planet with the id.
pub open spec fn asked(moves: Seq<Move>, id: i64) -> int
    decreases moves.len(),
{
    if moves.len() == 0 {
        0
    } else {
        asked(moves.drop_last(), id) + (if moves.last().from_id == id {
            moves.last().ships as int
        } else {
            0
        })
    }
}

/// Whether a planet of `player` has the id.
pub open spec fn held_by(planets: Seq<Planet>, player: i64, id: i64) -> bool {
    exists|i: int| 0 <= i < planets.len() && (#[trigger] planets[i]).id == id && planets[i].owner == player
}

/// The moves go from planets of `player`, and together send no more from any than
/// are there.
pub open spec fn affordable(planets: Seq<Planet>, player: i64, moves: Seq<Move>) -> bool {
    &&& forall|k: int|
        0 <= k < moves.len() ==> (#[trigger] moves[k]).ships >= 0 && held_by(planets, player, moves[k].from_id)
    &&& forall|i: int| 0 <= i < planets.len() ==> asked(moves, (#[trigger] planets[i]).id) <= planets[i].ships
}

/// How many of the moves send ships.
pub open spec fn sending(moves: Seq<Move>) -> nat
    decreases moves.len(),
{
    if moves.len() == 0 {
        0
    } else {
        sending(moves.drop_last()) + (if moves.last().ships > 0 {
            1nat
        } else {
            0
        })
    }
}

/// Where every move sends ships, as many do as there are moves.
pub proof fn lemma_sending(moves: Seq<Move>)
    requires
        forall|k: int| 0 <= k < moves.len() ==> (#[trigger] moves[k]).ships > 0,
    ensures
        sending(moves) == moves.len(),
    decreases moves.len(),
{
    if moves.len() > 0 {
        let front = moves.drop_last();
        assert forall|k: int| 0 <= k < front.len() implies (#[trigger] front[k]).ships > 0 by {
            assert(front[k] == moves[k]);
        }
        lemma_sending(front);
        assert(moves[moves.len() - 1].ships > 0);
    }
}

/// Moves that take no ships back ask for no less than none.
pub proof fn lemma_asked_part(moves: Seq<Move>, id: i64)
    requires
        forall|k: int| 0 <= k < moves.len() ==> (#[trigger] moves[k]).ships >= 0,
    ensures
        asked(moves, id) >= 0,
    decreases moves.len(),
{
    if moves.len() > 0 {
        let front = moves.drop_last();
        assert forall|k: int| 0 <= k < front.len() implies (#[trigger] front[k]).ships >= 0 by {
            assert(front[k] == moves[k]);
        }
        lemma_asked_part(front, id);
        assert(moves[moves.len() - 1].ships >= 0);
    }
}

/// Orders that a player can afford are all carried out: each that sends ships
/// gives a fleet, and the planets are left with what was not asked of them.
pub proof fn lemma_carried_out(g: GameModel, player: i64, orders: Seq<Order>)
    requires
        crate::tick::manned(g.planets),
        distinct(g.planets),
        affordable(g.planets, player, said(orders)),
    ensures
        ({
            let l = crate::engine::launched_all(g, player, orders);
            &&& l.fleets.len() == g.fleets.len() + sending(said(orders))
            &&& l.next_fleet_id == g.next_fleet_id + sending(said(orders))
            &&& l.planets.len() == g.planets.len()
            &&& forall|i: int|
                0 <= i < g.planets.len() ==> (#[trigger] l.planets[i]) == (Planet {
                    ships: (g.planets[i].ships - asked(said(orders), g.planets[i].id)) as i64,
                    ..g.planets[i]
                })
        }),
    decreases orders.len(),
{
    let moves = said(orders);
    if orders.len() == 0 {
        let l = crate::engine::launched_all(g, player, orders);
        assert forall|i: int| 0 <= i < g.planets.len() implies (#[trigger] l.planets[i]) == (Planet {
            ships: (g.planets[i].ships - asked(moves, g.planets[i].id)) as i64,
            ..g.planets[i]
        }) by {}
    } else {
        let front = orders.drop_last();
        let o = orders.last();
        let before = said(front);
        assert(moves.drop_last() =~= before);
        assert forall|k: int| 0 <= k < before.len() implies (#[trigger] before[k]).ships >= 0 && held_by(
            g.planets,
            player,
            before[k].from_id,
        ) by {
            assert(before[k] == moves[k]);
        }
        assert(moves[moves.len() - 1].ships >= 0);
        assert forall|i: int| 0 <= i < g.planets.len() implies asked(before, (#[trigger] g.planets[i]).id)
            <= g.planets[i].ships by {
            assert(asked(moves, g.planets[i].id) <= g.planets[i].ships);
        }
        lemma_carried_out(g, player, front);
        let m = crate::engine::launched_all(g, player, front);
        assert(held_by(g.planets, player, moves[moves.len() - 1].from_id));
        let at = choose|i: int|
            0 <= i < g.planets.len() && (#[trigger] g.planets[i]).id == o.from_id && g.planets[i].owner == player;
        crate::state::lemma_planet_index(m.planets, o.from_id);
        assert(m.planets[at].id == o.from_id);
        let i = crate::state::planet_index(m.planets, o.from_id)->0;
        assert(m.planets[i].id == g.planets[i].id);
        assert(i == at) by {
            if i < at {
                assert(g.planets[i].id != g.planets[at].id);
            } else if at < i {
                assert(g.planets[at].id != g.planets[i].id);
            }
        }
        lemma_asked_part(before, o.from_id);
        assert(asked(moves, g.planets[at].id) <= g.planets[at].ships);
        assert(crate::engine::may_launch(m.planets[i], player, o) == (o.ships > 0));
        let l = crate::engine::launched_all(g, player, orders);
        assert forall|j: int| 0 <= j < g.planets.len() implies (#[trigger] l.planets[j]) == (Planet {
            ships: (g.planets[j].ships - asked(moves, g.planets[j].id)) as i64,
            ..g.planets[j]
        }) by {
            assert(m.planets[j] == (Planet {
                ships: (g.planets[j].ships - asked(before, g.planets[j].id)) as i64,
                ..g.planets[j]
            }));
            if j < at {
                assert(g.planets[j].id != g.planets[at].id);
            } else if at < j {
                assert(g.planets[at].id != g.planets[j].id);
            }
        }
    }
}

/// No two fleets share an id.
pub open spec fn told_apart(fleets: Seq<Fleet>) -> bool {
    forall|i: int, j: int| 0 <= i < j < fleets.len() ==> (#[trigger] fleets[i]).id != (#[trigger] fleets[j]).id
}

/// Fleets stand in the order of their ids.
pub open spec fn in_order(fleets: Seq<Fleet>) -> bool {
    forall|i: int, j: int| 0 <= i < j < fleets.len() ==> (#[trigger] fleets[i]).id < (#[trigger] fleets[j]).id
}

/// No two fleets share an id, and all ids are below the next one.
pub open spec fn numbered(g: GameModel) -> bool {
    &&& forall|i: int| 0 <= i < g.fleets.len() ==> (#[trigger] g.fleets[i]).id < g.next_fleet_id
    &&& told_apart(g.fleets)
}

proof fn lemma_launched_numbered(g: GameModel, player: i64, orders: Seq<Order>)
    requires
        numbered(g),
        i64::MIN <= g.next_fleet_id,
        g.next_fleet_id + orders.len() <= i64::MAX,
    ensures
        numbered(crate::engine::launched_all(g, player, orders)),
        in_order(g.fleets) ==> in_order(crate::engine::launched_all(g, player, orders).fleets),
        g.next_fleet_id <= crate::engine::launched_all(g, player, orders).next_fleet_id <= g.next_fleet_id
            + orders.len(),
    decreases orders.len(),
{
    if orders.len() > 0 {
        lemma_launched_numbered(g, player, orders.drop_last());
        let front = crate::engine::launched_all(g, player, orders.drop_last());
        let l = crate::engine::launched(front, player, orders.last());
        assert forall|i: int| 0 <= i < l.fleets.len() implies (#[trigger] l.fleets[i]).id < l.next_fleet_id by {
            if i < front.fleets.len() {
                assert(l.fleets[i] == front.fleets[i]);
            }
        }
        assert forall|i: int, j: int| 0 <= i < j < l.fleets.len() implies (#[trigger] l.fleets[i]).id != (
        #[trigger] l.fleets[j]).id by {
            assert(l.fleets[i] == front.fleets[i]);
            if j < front.fleets.len() {
                assert(l.fleets[j] == front.fleets[j]);
            }
        }
        if in_order(g.fleets) {
            assert forall|i: int, j: int| 0 <= i < j < l.fleets.len() implies (#[trigger] l.fleets[i]).id < (
            #[trigger] l.fleets[j]).id by {
                assert(l.fleets[i] == front.fleets[i]);
                if j < front.fleets.len() {
                    assert(l.fleets[j] == front.fleets[j]);
                }
            }
        }
    }
}

proof fn lemma_after_launch_numbered(g: GameModel, actions: Seq<Vec<Order>>)
    requires
        numbered(g),
        i64::MIN <= g.next_fleet_id,
        g.next_fleet_id + crate::engine::order_count(actions) <= i64::MAX,
    ensures
        numbered(crate::engine::after_launch(g, actions)),
        in_order(g.fleets) ==> in_order(crate::engine::after_launch(g, actions).fleets),
        g.next_fleet_id <= crate::engine::after_launch(g, actions).next_fleet_id <= g.next_fleet_id
            + crate::engine::order_count(actions),
    decreases actions.len(),
{
    if actions.len() > 0 {
        lemma_after_launch_numbered(g, actions.drop_last());
        lemma_launched_numbered(
            crate::engine::after_launch(g, actions.drop_last()),
            (actions.len() - 1) as i64,
            actions.last()@,
        );
    }
}

/// Whether a fleet has the id.
spec fn flies(fleets: Seq<Fleet>, id: i64) -> bool {
    exists|k: int| 0 <= k < fleets.len() && (#[trigger] fleets[k]).id == id
}

/// Each fleet that goes on is one that was there, in the same order.
proof fn lemma_still_flying(fleets: Seq<Fleet>, moves: Seq<FleetMove>, paths: Seq<crate::motion::PlanetPath>)
    ensures
        ({
            let left = crate::tick::still_flying(fleets, moves, paths);
            &&& forall|i: int| 0 <= i < left.len() ==> flies(fleets, (#[trigger] left[i]).id)
            &&& told_apart(fleets) ==> told_apart(left)
            &&& in_order(fleets) ==> in_order(left)
        }),
    decreases fleets.len(),
{
    if fleets.len() > 0 {
        let front = fleets.drop_last();
        let last = fleets.last();
        assert(last == fleets[fleets.len() - 1]);
        assert forall|k: int| 0 <= k < front.len() implies #[trigger] front[k] == fleets[k] by {}
        lemma_still_flying(front, moves, paths);
        let before = crate::tick::still_flying(front, moves, paths);
        let left = crate::tick::still_flying(fleets, moves, paths);
        assert forall|i: int| 0 <= i < before.len() implies {
            &&& flies(fleets, (#[trigger] before[i]).id)
            &&& told_apart(fleets) ==> before[i].id != last.id
            &&& in_order(fleets) ==> before[i].id < last.id
        } by {
            let k = choose|k: int| 0 <= k < front.len() && (#[trigger] front[k]).id == before[i].id;
            assert(fleets[k].id == before[i].id);
        }
        assert forall|i: int| 0 <= i < left.len() implies flies(fleets, (#[trigger] left[i]).id) by {
            if i < before.len() {
                assert(left[i] == before[i]);
            } else {
                assert(fleets[fleets.len() - 1].id == left[i].id);
            }
        }
        if told_apart(fleets) {
            assert(told_apart(front));
            assert forall|i: int, j: int| 0 <= i < j < left.len() implies (#[trigger] left[i]).id != (
            #[trigger] left[j]).id by {
                assert(left[i] == before[i]);
                if j < before.len() {
                    assert(left[j] == before[j]);
                }
            }
        }
        if in_order(fleets) {
            assert(in_order(front));
            assert forall|i: int, j: int| 0 <= i < j < left.len() implies (#[trigger] left[i]).id < (
            #[trigger] left[j]).id by {
                assert(left[i] == before[i]);
                if j < before.len() {
                    assert(left[j] == before[j]);
                }
            }
        }
    }
}

/// No fleet id is given twice, and fleets in the order of their ids stay in it.
pub proof fn lemma_ticked_numbered(
    g: GameModel,
    cur_step: i64,
    spawn: Option<SpawnModel>,
    actions: Seq<Vec<Order>>,
    drift: Seq<Point>,
    moves: Seq<FleetMove>,
)
    requires
        numbered(g),
        i64::MIN <= g.next_fleet_id,
        g.next_fleet_id + crate::engine::order_count(actions) <= i64::MAX,
    ensures
        numbered(ticked(g, cur_step, spawn, actions, drift, moves)),
        in_order(g.fleets) ==> in_order(ticked(g, cur_step, spawn, actions, drift, moves).fleets),
        ticked(g, cur_step, spawn, actions, drift, moves).next_fleet_id >= g.next_fleet_id,
{
    let o = opened(g, cur_step, spawn);
    assert(o.fleets == g.fleets && o.next_fleet_id == g.next_fleet_id);
    lemma_after_launch_numbered(o, actions);
    let s = supplied(o, actions);
    let m = crate::motion::planned(s, drift);
    lemma_still_flying(s.fleets, moves, m.paths);
    let left = ticked(g, cur_step, spawn, actions, drift, moves).fleets;
    assert forall|i: int| 0 <= i < left.len() implies (#[trigger] left[i]).id < s.next_fleet_id by {
        assert(flies(s.fleets, left[i].id));
        let k = choose|k: int| 0 <= k < s.fleets.len() && (#[trigger] s.fleets[k]).id == left[i].id;
        assert(s.fleets[k].id < s.next_fleet_id);
    }
}

/// A game in good order: it is valid, so that planets stand beside their initial
/// copies and no ships are owed, no two planets share an id, and neither do fleets,
/// whose ids are all below the next one.
pub open spec fn orderly(g: GameModel) -> bool {
    &&& g.valid()
    &&& distinct(g.planets)
    &&& numbered(g)
}

/// A tick leaves a game in good order.
pub proof fn lemma_ticked_orderly(
    g: GameModel,
    cur_step: i64,
    spawn: Option<SpawnModel>,
    actions: Seq<Vec<Order>>,
    drift: Seq<Point>,
    moves: Seq<FleetMove>,
)
    requires
        orderly(g),
        spawn_fits(g, cur_step, spawn),
        g.ships_in_play() + spawned_ships(cur_step, spawn) + crate::state::held_production(g.planets) <= i64::MAX,
        i64::MIN <= g.next_fleet_id,
        g.next_fleet_id + crate::engine::order_count(actions) <= i64::MAX,
    ensures
        orderly(ticked(g, cur_step, spawn, actions, drift, moves)),
{
    lemma_ticked(g, cur_step, spawn, actions, drift, moves);
    lemma_ticked_distinct(g, cur_step, spawn, actions, drift, moves);
    lemma_ticked_numbered(g, cur_step, spawn, actions, drift, moves);
}

/// Whether one of the groups has the comet.
pub open spec fn grouped(comets: Seq<GroupModel>, id: i64) -> bool {
    exists|k: int| 0 <= k < comets.len() && (#[trigger] comets[k]).planet_ids.contains(id)
}

/// The comets listed are those of the groups.
pub open spec fn comets_listed(g: GameModel) -> bool {
    forall|id: i64| #[trigger] g.comet_planet_ids.contains(id) <==> grouped(g.comets, id)
}

proof fn lemma_kept_ids(ids: Seq<i64>, gone: Seq<i64>, id: i64)
    ensures
        crate::engine::kept_ids(ids, gone).contains(id) <==> ids.contains(id) && !gone.contains(id),
    decreases ids.len(),
{
    if ids.len() > 0 {
        let front = ids.drop_last();
        let kept = crate::engine::kept_ids(front, gone);
        lemma_kept_ids(front, gone, id);
        assert(front.push(ids.last()) =~= ids);
        if gone.contains(ids.last()) {
            if ids.contains(id) && !gone.contains(id) {
                let k = choose|k: int| 0 <= k < ids.len() && ids[k] == id;
                assert(front[k] == id);
            }
        } else {
            let all = kept.push(ids.last());
            if all.contains(id) {
                let k = choose|k: int| 0 <= k < all.len() && all[k] == id;
                if k < kept.len() {
                    assert(kept[k] == id);
                } else {
                    assert(ids[ids.len() - 1] == id);
                }
            }
            if ids.contains(id) && !gone.contains(id) {
                let k = choose|k: int| 0 <= k < ids.len() && ids[k] == id;
                if k < front.len() {
                    assert(front[k] == id);
                    let m = choose|m: int| 0 <= m < kept.len() && kept[m] == id;
                    assert(all[m] == id);
                } else {
                    assert(all[kept.len() as int] == id);
                }
            }
        }
        if front.contains(id) {
            let k = choose|k: int| 0 <= k < front.len() && front[k] == id;
            assert(ids[k] == id);
        }
    }
}

proof fn lemma_kept_grouped(comets: Seq<GroupModel>, gone: Seq<i64>, id: i64)
    ensures
        grouped(crate::engine::kept_groups(comets, gone), id) <==> grouped(comets, id) && !gone.contains(id),
    decreases comets.len(),
{
    if comets.len() > 0 {
        let front = comets.drop_last();
        let last = crate::engine::kept_group(comets.last(), gone);
        let kept = crate::engine::kept_groups(front, gone);
        let all = crate::engine::kept_groups(comets, gone);
        lemma_kept_grouped(front, gone, id);
        lemma_kept_ids(comets.last().planet_ids, gone, id);
        if grouped(all, id) {
            let k = choose|k: int| 0 <= k < all.len() && (#[trigger] all[k]).planet_ids.contains(id);
            if k < kept.len() {
                assert(kept[k].planet_ids.contains(id));
                let m = choose|m: int| 0 <= m < front.len() && (#[trigger] front[m]).planet_ids.contains(id);
                assert(comets[m].planet_ids.contains(id));
            } else {
                assert(comets[comets.len() - 1].planet_ids.contains(id));
            }
        }
        if grouped(comets, id) && !gone.contains(id) {
            let k = choose|k: int| 0 <= k < comets.len() && (#[trigger] comets[k]).planet_ids.contains(id);
            if k < front.len() {
                assert(front[k].planet_ids.contains(id));
                let m = choose|m: int| 0 <= m < kept.len() && (#[trigger] kept[m]).planet_ids.contains(id);
                assert(all[m].planet_ids.contains(id));
            } else {
                assert(last.planet_ids.contains(id));
                assert(all[kept.len() as int].planet_ids.contains(id));
            }
        }
    }
}

proof fn lemma_without_listed(g: GameModel, gone: Seq<i64>)
    requires
        comets_listed(g),
    ensures
        comets_listed(crate::engine::without_comets(g, gone)),
{
    let w = crate::engine::without_comets(g, gone);
    assert forall|id: i64| #[trigger] w.comet_planet_ids.contains(id) <==> grouped(w.comets, id) by {
        lemma_kept_ids(g.comet_planet_ids, gone, id);
        lemma_kept_grouped(g.comets, gone, id);
        assert(g.comet_planet_ids.contains(id) <==> grouped(g.comets, id));
    }
}

proof fn lemma_with_listed(g: GameModel, paths: Seq<Seq<Point>>, ships: i64)
    requires
        comets_listed(g),
    ensures
        comets_listed(crate::engine::with_comets(g, paths, ships)),
{
    let w = crate::engine::with_comets(g, paths, ships);
    let ids = crate::engine::new_ids(g.planets, paths.len());
    let n = g.comets.len() as int;
    assert forall|id: i64| #[trigger] w.comet_planet_ids.contains(id) <==> grouped(w.comets, id) by {
        assert(g.comet_planet_ids.contains(id) <==> grouped(g.comets, id));
        if w.comet_planet_ids.contains(id) {
            let k = choose|k: int| 0 <= k < w.comet_planet_ids.len() && w.comet_planet_ids[k] == id;
            if k < g.comet_planet_ids.len() {
                assert(g.comet_planet_ids[k] == id);
                let m = choose|m: int| 0 <= m < g.comets.len() && (#[trigger] g.comets[m]).planet_ids.contains(id);
                assert(w.comets[m].planet_ids.contains(id));
            } else {
                assert(ids[k - g.comet_planet_ids.len()] == id);
                assert(w.comets[n].planet_ids.contains(id));
            }
        }
        if grouped(w.comets, id) {
            let m = choose|m: int| 0 <= m < w.comets.len() && (#[trigger] w.comets[m]).planet_ids.contains(id);
            if m < n {
                assert(g.comets[m].planet_ids.contains(id));
                let k = choose|k: int| 0 <= k < g.comet_planet_ids.len() && g.comet_planet_ids[k] == id;
                assert(w.comet_planet_ids[k] == id);
            } else {
                let k = choose|k: int| 0 <= k < ids.len() && ids[k] == id;
                assert(w.comet_planet_ids[g.comet_planet_ids.len() + k] == id);
            }
        }
    }
}

/// The comets that are listed stay those of the groups.
pub proof fn lemma_ticked_comets(
    g: GameModel,
    cur_step: i64,
    spawn: Option<SpawnModel>,
    actions: Seq<Vec<Order>>,
    drift: Seq<Point>,
    moves: Seq<FleetMove>,
)
    requires
        g.valid(),
        spawn_fits(g, cur_step, spawn),
        comets_listed(g),
    ensures
        comets_listed(ticked(g, cur_step, spawn, actions, drift, moves)),
{
    let left = crate::engine::after_expiry(g);
    lemma_without_listed(g, crate::engine::expired_ids(g.comets));
    if let Some(s) = spawn {
        lemma_with_listed(left, s.paths, s.ships);
    }
    let o = opened(g, cur_step, spawn);
    lemma_opened(g, cur_step, spawn);
    lemma_after_launch(o, actions);
    let s = supplied(o, actions);
    let c = crate::motion::comets_stepped(s);
    assert forall|id: i64| #[trigger] c.comet_planet_ids.contains(id) <==> grouped(c.comets, id) by {
        assert(o.comet_planet_ids.contains(id) <==> grouped(o.comets, id));
        if grouped(o.comets, id) {
            let k = choose|k: int| 0 <= k < o.comets.len() && (#[trigger] o.comets[k]).planet_ids.contains(id);
            assert(c.comets[k].planet_ids.contains(id));
        }
        if grouped(c.comets, id) {
            let k = choose|k: int| 0 <= k < c.comets.len() && (#[trigger] c.comets[k]).planet_ids.contains(id);
            assert(o.comets[k].planet_ids.contains(id));
        }
    }
    let m = crate::motion::planned(s, drift);
    let there = GameModel { planets: crate::tick::moved(c.planets, m.paths), ..c };
    assert(comets_listed(there));
    lemma_without_listed(there, m.expired);
}

/// Whether no ships are owed anywhere in the game.
pub fn is_solvent(g: &GameState) -> (r: bool)
    ensures
        r == g@.solvent(),
{
    let mut i: usize = 0;
    while i < g.planets.len()
        invariant
            i <= g.planets@.len(),
            forall|k: int| 0 <= k < i ==> (#[trigger] g@.planets[k]).ships >= 0 && g@.planets[k].production >= 0,
        decreases g.planets@.len() - i,
    {
        let p = g.planets[i];
        if p.ships < 0 || p.production < 0 {
            assert(g@.planets[i as int] == p);
            return false;
        }
        i += 1;
    }
    let mut j: usize = 0;
    while j < g.fleets.len()
        invariant
            j <= g.fleets@.len(),
            forall|k: int| 0 <= k < j ==> (#[trigger] g@.fleets[k]).ships >= 0,
        decreases g.fleets@.len() - j,
    {
        if g.fleets[j].ships < 0 {
            assert(g@.fleets[j as int].ships < 0);
            return false;
        }
        j += 1;
    }
    true
}

/// Whether the game is valid.
pub fn is_valid(g: &GameState) -> (r: bool)
    ensures
        r == g@.valid(),
{
    if g.planets.len() != g.initial_planets.len() || !is_solvent(g) {
        return false;
    }
    let mut i: usize = 0;
    while i < g.planets.len()
        invariant
            i <= g.planets@.len(),
            g@.planets.len() == g@.initial_planets.len(),
            forall|k: int| 0 <= k < i ==> (#[trigger] g@.planets[k]).id == g@.initial_planets[k].id,
        decreases g.planets@.len() - i,
    {
        if g.planets[i].id != g.initial_planets[i].id {
            assert(g@.planets[i as int].id != g@.initial_planets[i as int].id);
            return false;
        }
        i += 1;
    }
    let mut c: usize = 0;
    while c < g.comets.len()
        invariant
            c <= g.comets@.len(),
            forall|k: int| 0 <= k < c ==> (#[trigger] g@.comets[k]).valid(),
        decreases g.comets@.len() - c,
    {
        let group = &g.comets[c];
        assert(g@.comets[c as int] == group@);
        assert(group@.paths.len() == group.paths@.len());
        if group.planet_ids.len() > group.paths.len() || group.path_index < -1 {
            assert(!g@.comets[c as int].valid());
            return false;
        }
        c += 1;
    }
    true
}

/// Whether a tick can go on: the ships of the game, with all that its planets
/// make, can be counted, and no comet is past all counting along its path.
pub open spec fn can_go_on(g: GameModel) -> bool {
    &&& g.ships_in_play() + crate::state::held_production(g.planets) <= i64::MAX
    &&& forall|i: int| 0 <= i < g.comets.len() ==> (#[trigger] g.comets[i]).path_index < i64::MAX
}

proof fn lemma_sum_part(g: GameModel, i: int, j: int)
    requires
        g.solvent(),
        0 <= i <= g.planets.len(),
        0 <= j <= g.fleets.len(),
    ensures
        0 <= crate::state::planet_ships(g.planets.take(i)) <= crate::state::planet_ships(g.planets),
        0 <= crate::state::held_production(g.planets.take(i)) <= crate::state::held_production(g.planets),
        0 <= crate::state::fleet_ships(g.fleets.take(j)) <= crate::state::fleet_ships(g.fleets),
    decreases (g.planets.len() - i) + (g.fleets.len() - j),
{
    assert(crate::tick::manned(g.planets));
    if i < g.planets.len() {
        lemma_sum_part(g, i + 1, j);
        assert(g.planets.take(i + 1).drop_last() =~= g.planets.take(i));
        assert(g.planets.take(i + 1).last() == g.planets[i]);
    } else if j < g.fleets.len() {
        lemma_sum_part(g, i, j + 1);
        assert(g.fleets.take(j + 1).drop_last() =~= g.fleets.take(j));
        assert(g.fleets.take(j + 1).last() == g.fleets[j]);
    }
    assert(g.planets.take(g.planets.len() as int) =~= g.planets);
    assert(g.fleets.take(g.fleets.len() as int) =~= g.fleets);
    lemma_sum_sign(g.planets.take(i));
    lemma_fleet_sign(g.fleets.take(j));
}

proof fn lemma_sum_sign(planets: Seq<Planet>)
    requires
        forall|k: int| 0 <= k < planets.len() ==> (#[trigger] planets[k]).ships >= 0 && planets[k].production >= 0,
    ensures
        crate::state::planet_ships(planets) >= 0,
        crate::state::held_production(planets) >= 0,
    decreases planets.len(),
{
    if planets.len() > 0 {
        let front = planets.drop_last();
        assert forall|k: int| 0 <= k < front.len() implies (#[trigger] front[k]).ships >= 0 && front[k].production
            >= 0 by {
            assert(front[k] == planets[k]);
        }
        lemma_sum_sign(front);
        assert(planets[planets.len() - 1].ships >= 0);
    }
}

proof fn lemma_fleet_sign(fleets: Seq<Fleet>)
    requires
        forall|k: int| 0 <= k < fleets.len() ==> (#[trigger] fleets[k]).ships >= 0,
    ensures
        crate::state::fleet_ships(fleets) >= 0,
{
    crate::tick::lemma_flying(fleets, 0);
}

/// Whether a tick can go on.
pub fn is_ready(g: &GameState) -> (r: bool)
    requires
        g@.solvent(),
    ensures
        r == can_go_on(g@),
{
    let mut total: i64 = 0;
    let mut i: usize = 0;
    assert(g@.planets.take(0) =~= Seq::<Planet>::empty());
    while i < g.planets.len()
        invariant
            i <= g.planets@.len(),
            g@.solvent(),
            total >= 0,
            total == crate::state::planet_ships(g@.planets.take(i as int)) + crate::state::held_production(
                g@.planets.take(i as int),
            ),
        decreases g.planets@.len() - i,
    {
        let p = g.planets[i];
        proof {
            assert(g@.planets.take(i + 1).drop_last() =~= g@.planets.take(i as int));
            assert(g@.planets.take(i + 1).last() == p);
            assert(g@.planets[i as int] == p);
            lemma_sum_part(g@, i + 1, 0);
            lemma_sum_part(g@, i + 1, g@.fleets.len() as int);
            assert(g@.fleets.take(g@.fleets.len() as int) =~= g@.fleets);
        }
        if p.ships > i64::MAX - total {
            return false;
        }
        total = total + p.ships;
        if p.owner != crate::state::NEUTRAL {
            if p.production > i64::MAX - total {
                return false;
            }
            total = total + p.production;
        }
        i += 1;
    }
    assert(g@.planets.take(i as int) =~= g@.planets);
    let mut j: usize = 0;
    assert(g@.fleets.take(0) =~= Seq::<Fleet>::empty());
    while j < g.fleets.len()
        invariant
            j <= g.fleets@.len(),
            g@.solvent(),
            total >= 0,
            total == crate::state::planet_ships(g@.planets) + crate::state::held_production(g@.planets)
                + crate::state::fleet_ships(g@.fleets.take(j as int)),
        decreases g.fleets@.len() - j,
    {
        let f = g.fleets[j];
        proof {
            assert(g@.fleets.take(j + 1).drop_last() =~= g@.fleets.take(j as int));
            assert(g@.fleets.take(j + 1).last() == f);
            assert(g@.fleets[j as int] == f);
            lemma_sum_part(g@, 0, j + 1);
        }
        if f.ships > i64::MAX - total {
            return false;
        }
        total = total + f.ships;
        j += 1;
    }
    assert(g@.fleets.take(j as int) =~= g@.fleets);
    let mut c: usize = 0;
    while c < g.comets.len()
        invariant
            c <= g.comets@.len(),
            forall|k: int| 0 <= k < c ==> (#[trigger] g@.comets[k]).path_index < i64::MAX,
        decreases g.comets@.len() - c,
    {
        assert(g@.comets[c as int] == g.comets@[c as int]@);
        if g.comets[c].path_index == i64::MAX {
            return false;
        }
        c += 1;
    }
    true
}

} // verus!
