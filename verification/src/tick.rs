//! The second half of a tick: fleets fly and land, battles are fought, and the
//! game is scored.

use crate::combat::{resolve, Arrival};
use crate::double::Point;
use crate::engine::remove_comets;
use crate::motion::{PlanetMotion, PlanetPath};
use crate::state::{find_planet, Fleet, GameState, Planet};
use vstd::prelude::*;

verus! {

use crate::motion::MotionModel;
use crate::state::GameModel;

/// The flight of a fleet over a tick: where it ends, which planets it comes
/// within reach of on the way, and whether it flies through the sun.
pub struct FleetMove {
    pub to: Point,
    pub contacts: Vec<bool>,
    pub sun: bool,
}

/// How a flight ends.
pub enum Fate {
    Lands { planet: int },
    Lost,
    Flies,
}

/// The first of the first `n` planets that can be hit and is within reach.
pub open spec fn first_contact(paths: Seq<PlanetPath>, contacts: Seq<bool>, n: nat) -> Option<int>
    decreases n,
{
    if n == 0 {
        None
    } else {
        match first_contact(paths, contacts, (n - 1) as nat) {
            Some(j) => Some(j),
            None => if paths[n - 1].check && contacts[n - 1] {
                Some(n - 1)
            } else {
                None
            },
        }
    }
}

/// How the flight ends: on the first planet in reach; else it is lost off the
/// board or in the sun; else it goes on.
pub open spec fn fate(paths: Seq<PlanetPath>, m: FleetMove) -> Fate {
    match first_contact(paths, m.contacts@, paths.len()) {
        Some(j) => Fate::Lands { planet: j },
        None => if !m.to.within_board() || m.sun {
            Fate::Lost
        } else {
            Fate::Flies
        },
    }
}

/// The fleets that go on, where they then are.
pub open spec fn still_flying(fleets: Seq<Fleet>, moves: Seq<FleetMove>, paths: Seq<PlanetPath>) -> Seq<Fleet>
    decreases fleets.len(),
{
    if fleets.len() == 0 {
        Seq::empty()
    } else {
        let front = still_flying(fleets.drop_last(), moves, paths);
        let m = moves[fleets.len() - 1];
        if fate(paths, m) is Flies {
            front.push(Fleet { x: m.to.x, y: m.to.y, ..fleets.last() })
        } else {
            front
        }
    }
}

/// What lands on planet `j`, in the order of the fleets.
pub open spec fn landing(fleets: Seq<Fleet>, moves: Seq<FleetMove>, paths: Seq<PlanetPath>, j: int) -> Seq<Arrival>
    decreases fleets.len(),
{
    if fleets.len() == 0 {
        Seq::empty()
    } else {
        let front = landing(fleets.drop_last(), moves, paths, j);
        if fate(paths, moves[fleets.len() - 1]) == (Fate::Lands { planet: j }) {
            front.push(Arrival { owner: fleets.last().owner, ships: fleets.last().ships })
        } else {
            front
        }
    }
}

/// What lands on each planet.
pub open spec fn landings(fleets: Seq<Fleet>, moves: Seq<FleetMove>, paths: Seq<PlanetPath>) -> Seq<Seq<Arrival>> {
    Seq::new(paths.len(), |j: int| landing(fleets, moves, paths, j))
}

/// The planet after the battle over it: the side that survives joins the
/// garrison if it is its own, and else fights it. A garrison that holds to the
/// last ship keeps the planet.
pub open spec fn after_battle(p: Planet, list: Seq<Arrival>) -> Planet {
    match crate::combat::survivor(list) {
        None => p,
        Some((owner, ships)) => if p.owner == owner {
            Planet { ships: (p.ships + ships) as i64, ..p }
        } else if p.ships >= ships {
            Planet { ships: (p.ships - ships) as i64, ..p }
        } else {
            Planet { owner, ships: (ships - p.ships) as i64, ..p }
        },
    }
}

/// The planets after the battles over the first `n` of `ids`, in that order.
pub open spec fn after_battles(planets: Seq<Planet>, ids: Seq<i64>, lists: Seq<Seq<Arrival>>, n: nat) -> Seq<Planet>
    decreases n,
{
    if n == 0 {
        planets
    } else {
        let front = after_battles(planets, ids, lists, (n - 1) as nat);
        match crate::state::planet_index(front, ids[n - 1]) {
            Some(i) => front.update(i, after_battle(front[i], lists[n - 1])),
            None => front,
        }
    }
}

/// The planets where their ways end.
pub open spec fn moved(planets: Seq<Planet>, paths: Seq<PlanetPath>) -> Seq<Planet> {
    Seq::new(planets.len(), |i: int| Planet { x: paths[i].to.x, y: paths[i].to.y, ..planets[i] })
}

/// The ids of the planets.
pub open spec fn ids_of(planets: Seq<Planet>) -> Seq<i64> {
    Seq::new(planets.len(), |i: int| planets[i].id)
}

/// The game once planets and comets have moved.
pub open spec fn planets_moved(g: GameModel, m: MotionModel) -> GameModel {
    let there = GameModel { planets: moved(g.planets, m.paths), ..g };
    if m.expired.len() == 0 {
        there
    } else {
        crate::engine::without_comets(there, m.expired)
    }
}

/// The game at the end of the tick.
pub open spec fn resolved(g: GameModel, m: MotionModel, moves: Seq<FleetMove>) -> GameModel {
    let there = planets_moved(g, m);
    GameModel {
        fleets: still_flying(g.fleets, moves, m.paths),
        planets: after_battles(
            there.planets,
            ids_of(g.planets),
            landings(g.fleets, moves, m.paths),
            g.planets.len(),
        ),
        ..there
    }
}

/// Every fleet has its flight, and every flight says of each planet whether it
/// comes within reach.
pub open spec fn flights_fit(fleets: Seq<Fleet>, moves: Seq<FleetMove>, paths: Seq<PlanetPath>) -> bool {
    &&& moves.len() == fleets.len()
    &&& forall|i: int| 0 <= i < moves.len() ==> (#[trigger] moves[i]).contacts@.len() == paths.len()
}

proof fn lemma_first_contact(paths: Seq<PlanetPath>, contacts: Seq<bool>, n: nat)
    ensures
        match first_contact(paths, contacts, n) {
            Some(j) => 0 <= j < n,
            None => true,
        },
    decreases n,
{
    if n > 0 {
        lemma_first_contact(paths, contacts, (n - 1) as nat);
    }
}

fn find_contact(paths: &Vec<PlanetPath>, contacts: &Vec<bool>) -> (r: Option<usize>)
    requires
        contacts@.len() == paths@.len(),
    ensures
        match r {
            Some(j) => j < paths@.len() && first_contact(paths@, contacts@, paths@.len()) == Some(j as int),
            None => first_contact(paths@, contacts@, paths@.len()) is None,
        },
{
    let mut j: usize = 0;
    while j < paths.len()
        invariant
            j <= paths@.len(),
            contacts@.len() == paths@.len(),
            first_contact(paths@, contacts@, j as nat) is None,
        decreases paths@.len() - j,
    {
        if paths[j].check && contacts[j] {
            proof {
                lemma_contact_stays(paths@, contacts@, j as nat + 1, paths@.len());
            }
            return Some(j);
        }
        j += 1;
    }
    None
}

proof fn lemma_contact_stays(paths: Seq<PlanetPath>, contacts: Seq<bool>, n: nat, m: nat)
    requires
        n <= m,
        first_contact(paths, contacts, n) is Some,
    ensures
        first_contact(paths, contacts, m) == first_contact(paths, contacts, n),
    decreases m,
{
    if n < m {
        lemma_contact_stays(paths, contacts, n, (m - 1) as nat);
    }
}

/// The lists as sequences.
pub open spec fn lists_model(lists: Seq<Vec<Arrival>>) -> Seq<Seq<Arrival>> {
    Seq::new(lists.len(), |i: int| lists[i]@)
}

fn fly(fleets: &Vec<Fleet>, moves: &Vec<FleetMove>, paths: &Vec<PlanetPath>) -> (r: (Vec<Fleet>, Vec<Vec<Arrival>>))
    requires
        flights_fit(fleets@, moves@, paths@),
    ensures
        r.0@ == still_flying(fleets@, moves@, paths@),
        lists_model(r.1@) == landings(fleets@, moves@, paths@),
{
    let mut left: Vec<Fleet> = Vec::new();
    let mut lists: Vec<Vec<Arrival>> = Vec::new();
    let ghost none = fleets@.take(0);
    assert(none =~= Seq::<Fleet>::empty());
    while lists.len() < paths.len()
        invariant
            lists@.len() <= paths@.len(),
            none.len() == 0,
            forall|j: int| 0 <= j < lists@.len() ==> (#[trigger] lists@[j])@ =~= landing(none, moves@, paths@, j),
        decreases paths@.len() - lists@.len(),
    {
        lists.push(Vec::new());
    }
    let mut i: usize = 0;
    while i < fleets.len()
        invariant
            i <= fleets@.len(),
            flights_fit(fleets@, moves@, paths@),
            lists@.len() == paths@.len(),
            left@ == still_flying(fleets@.take(i as int), moves@, paths@),
            forall|j: int|
                0 <= j < lists@.len() ==> (#[trigger] lists@[j])@ == landing(
                    fleets@.take(i as int),
                    moves@,
                    paths@,
                    j,
                ),
        decreases fleets@.len() - i,
    {
        let f = fleets[i];
        let m = &moves[i];
        assert(fleets@.take(i + 1).drop_last() =~= fleets@.take(i as int));
        assert(fleets@.take(i + 1).last() == f);
        let ghost before = lists@;
        match find_contact(paths, &m.contacts) {
            Some(j) => {
                lists[j].push(Arrival { owner: f.owner, ships: f.ships });
                assert forall|k: int| 0 <= k < lists@.len() implies (#[trigger] lists@[k])@ == landing(
                    fleets@.take(i + 1),
                    moves@,
                    paths@,
                    k,
                ) by {
                    assert(before[k]@ == landing(fleets@.take(i as int), moves@, paths@, k));
                }
            },
            None => {
                if m.to.on_board() && !m.sun {
                    left.push(Fleet { x: m.to.x, y: m.to.y, ..f });
                }
            },
        }
        i += 1;
    }
    assert(fleets@.take(i as int) =~= fleets@);
    assert(lists_model(lists@) =~= landings(fleets@, moves@, paths@));
    (left, lists)
}

/// Arrivals on the first `n` planets together.
pub open spec fn landed(lists: Seq<Seq<Arrival>>, n: nat) -> int
    decreases n,
{
    if n == 0 {
        0
    } else {
        landed(lists, (n - 1) as nat) + crate::combat::brought(lists[n - 1])
    }
}

proof fn lemma_landed_push(lists: Seq<Seq<Arrival>>, j: int, a: Arrival, n: nat)
    requires
        0 <= j < lists.len(),
        n <= lists.len(),
    ensures
        landed(lists.update(j, lists[j].push(a)), n) == landed(lists, n) + (if j < n {
            a.ships as int
        } else {
            0
        }),
    decreases n,
{
    if n > 0 {
        lemma_landed_push(lists, j, a, (n - 1) as nat);
        if j == n - 1 {
            assert(lists[j].push(a).drop_last() =~= lists[j]);
        }
    }
}

/// Every ship in flight lands, flies on or is lost.
pub proof fn lemma_flights_add_up(fleets: Seq<Fleet>, moves: Seq<FleetMove>, paths: Seq<PlanetPath>)
    requires
        forall|i: int| 0 <= i < fleets.len() ==> (#[trigger] fleets[i]).ships >= 0,
    ensures
        landed(landings(fleets, moves, paths), paths.len()) + crate::state::fleet_ships(
            still_flying(fleets, moves, paths),
        ) <= crate::state::fleet_ships(fleets),
        forall|j: int| 0 <= j < paths.len() ==> crate::combat::no_debts(#[trigger] landing(fleets, moves, paths, j)),
        forall|i: int|
            0 <= i < still_flying(fleets, moves, paths).len() ==> (#[trigger] still_flying(
                fleets,
                moves,
                paths,
            )[i]).ships >= 0,
    decreases fleets.len(),
{
    let lists = landings(fleets, moves, paths);
    if fleets.len() == 0 {
        lemma_landed_empty(lists, paths.len());
    } else {
        let front = fleets.drop_last();
        let last = fleets.last();
        let m = moves[fleets.len() - 1];
        assert(fleets[fleets.len() - 1].ships >= 0);
        assert forall|i: int| 0 <= i < front.len() implies (#[trigger] front[i]).ships >= 0 by {
            assert(front[i] == fleets[i]);
        }
        lemma_flights_add_up(front, moves, paths);
        let before = landings(front, moves, paths);
        lemma_first_contact(paths, m.contacts@, paths.len());
        let a = Arrival { owner: last.owner, ships: last.ships };
        match fate(paths, m) {
            Fate::Lands { planet } => {
                assert(lists =~= before.update(planet, before[planet].push(a)));
                lemma_landed_push(before, planet, a, paths.len());
            },
            _ => {
                assert(lists =~= before);
                if fate(paths, m) is Flies {
                    let f = Fleet { x: m.to.x, y: m.to.y, ..last };
                    assert(still_flying(front, moves, paths).push(f).drop_last() =~= still_flying(
                        front,
                        moves,
                        paths,
                    ));
                }
            },
        }
        assert forall|j: int| 0 <= j < paths.len() implies crate::combat::no_debts(
            #[trigger] landing(fleets, moves, paths, j),
        ) by {
            let l = landing(fleets, moves, paths, j);
            let lf = landing(front, moves, paths, j);
            assert(crate::combat::no_debts(lf));
            assert forall|i: int| 0 <= i < l.len() implies (#[trigger] l[i]).ships >= 0 by {
                if i < lf.len() {
                    assert(l[i] == lf[i]);
                }
            }
        }
        let left = still_flying(fleets, moves, paths);
        assert forall|i: int| 0 <= i < left.len() implies (#[trigger] left[i]).ships >= 0 by {
            if i < still_flying(front, moves, paths).len() {
                assert(left[i] == still_flying(front, moves, paths)[i]);
            }
        }
    }
}

proof fn lemma_landed_empty(lists: Seq<Seq<Arrival>>, n: nat)
    requires
        n <= lists.len(),
        forall|j: int| 0 <= j < lists.len() ==> (#[trigger] lists[j]).len() == 0,
    ensures
        landed(lists, n) == 0,
    decreases n,
{
    if n > 0 {
        lemma_landed_empty(lists, (n - 1) as nat);
    }
}

/// Garrisons hold no debts.
pub open spec fn manned(planets: Seq<Planet>) -> bool {
    forall|i: int| 0 <= i < planets.len() ==> (#[trigger] planets[i]).ships >= 0
}

pub proof fn lemma_ships_update(planets: Seq<Planet>, i: int, p: Planet)
    requires
        0 <= i < planets.len(),
    ensures
        crate::state::planet_ships(planets.update(i, p)) == crate::state::planet_ships(planets) - planets[i].ships
            + p.ships,
    decreases planets.len(),
{
    let front = planets.drop_last();
    if i < planets.len() - 1 {
        lemma_ships_update(front, i, p);
        assert(planets.update(i, p).drop_last() =~= front.update(i, p));
    } else {
        assert(planets.update(i, p).drop_last() =~= front);
    }
}

pub proof fn lemma_ships_part(planets: Seq<Planet>, i: int)
    requires
        manned(planets),
        0 <= i < planets.len(),
    ensures
        0 <= planets[i].ships <= crate::state::planet_ships(planets),
    decreases planets.len(),
{
    let front = planets.drop_last();
    assert forall|k: int| 0 <= k < front.len() implies (#[trigger] front[k]).ships >= 0 by {
        assert(front[k] == planets[k]);
    }
    lemma_ships_total(front);
    if i < planets.len() - 1 {
        lemma_ships_part(front, i);
    }
    assert(planets[planets.len() - 1].ships >= 0);
}

pub proof fn lemma_ships_total(planets: Seq<Planet>)
    requires
        manned(planets),
    ensures
        crate::state::planet_ships(planets) >= 0,
    decreases planets.len(),
{
    if planets.len() > 0 {
        let front = planets.drop_last();
        assert forall|k: int| 0 <= k < front.len() implies (#[trigger] front[k]).ships >= 0 by {
            assert(front[k] == planets[k]);
        }
        lemma_ships_total(front);
        assert(planets[planets.len() - 1].ships >= 0);
    }
}

/// No arrival counts for less than nothing.
pub open spec fn all_count(lists: Seq<Seq<Arrival>>) -> bool {
    forall|j: int| 0 <= j < lists.len() ==> crate::combat::no_debts(#[trigger] lists[j])
}

proof fn lemma_landed_rest(lists: Seq<Seq<Arrival>>, j: nat, n: nat)
    requires
        j <= n <= lists.len(),
        all_count(lists),
    ensures
        0 <= landed(lists, j) <= landed(lists, n),
    decreases n,
{
    if j < n {
        assert(crate::combat::no_debts(lists[n - 1]));
        crate::combat::lemma_brought_by(lists[n - 1], 0);
        lemma_landed_rest(lists, j, (n - 1) as nat);
    } else if j > 0 {
        assert(crate::combat::no_debts(lists[j - 1]));
        crate::combat::lemma_brought_by(lists[j - 1], 0);
        lemma_landed_rest(lists, (j - 1) as nat, (j - 1) as nat);
    }
}

/// Battles leave every planet in its place in the list, with no debts, and with
/// no more ships in all than were there and landed.
pub proof fn lemma_battles(planets: Seq<Planet>, ids: Seq<i64>, lists: Seq<Seq<Arrival>>, n: nat)
    requires
        manned(planets),
        all_count(lists),
        n <= lists.len(),
        crate::state::planet_ships(planets) + landed(lists, n) <= i64::MAX,
    ensures
        ({
            let after = after_battles(planets, ids, lists, n);
            &&& manned(after)
            &&& after.len() == planets.len()
            &&& forall|i: int|
                0 <= i < planets.len() ==> (#[trigger] after[i]).id == planets[i].id && after[i].production
                    == planets[i].production
            &&& crate::state::planet_ships(after) <= crate::state::planet_ships(planets) + landed(lists, n)
        }),
    decreases n,
{
    if n > 0 {
        let k = (n - 1) as nat;
        lemma_landed_rest(lists, k, n);
        lemma_battles(planets, ids, lists, k);
        let front = after_battles(planets, ids, lists, k);
        let after = after_battles(planets, ids, lists, n);
        crate::state::lemma_planet_index(front, ids[n - 1]);
        assert(crate::combat::no_debts(lists[n - 1]));
        crate::combat::lemma_brought_by(lists[n - 1], 0);
        if let Some(i) = crate::state::planet_index(front, ids[n - 1]) {
            lemma_ships_part(front, i);
            crate::combat::lemma_survivor_bound(lists[n - 1]);
            lemma_ships_update(front, i, after_battle(front[i], lists[n - 1]));
            assert forall|m: int| 0 <= m < after.len() implies (#[trigger] after[m]).ships >= 0 && after[m].id
                == planets[m].id && after[m].production == planets[m].production by {
                assert(front[m].ships >= 0);
                assert(front[m].id == planets[m].id);
            }
        }
    }
}

/// Fights the battles over the planets with the given ids, in that order.
fn fight(planets: &mut Vec<Planet>, ids: &Vec<i64>, lists: &Vec<Vec<Arrival>>)
    requires
        manned(old(planets)@),
        ids@.len() == lists@.len(),
        all_count(lists_model(lists@)),
        crate::state::planet_ships(old(planets)@) + landed(lists_model(lists@), ids@.len()) <= i64::MAX,
    ensures
        final(planets)@ == after_battles(old(planets)@, ids@, lists_model(lists@), ids@.len()),
{
    let ghost start = planets@;
    let ghost all = lists_model(lists@);
    let mut j: usize = 0;
    while j < ids.len()
        invariant
            j <= ids@.len(),
            ids@.len() == lists@.len(),
            all == lists_model(lists@),
            manned(start),
            all_count(all),
            crate::state::planet_ships(start) + landed(all, ids@.len()) <= i64::MAX,
            planets@ == after_battles(start, ids@, all, j as nat),
        decreases ids@.len() - j,
    {
        let ghost front = planets@;
        let list = &lists[j];
        assert(all[j as int] == list@);
        proof {
            lemma_landed_rest(all, (j + 1) as nat, ids@.len());
            lemma_landed_rest(all, j as nat, (j + 1) as nat);
            lemma_battles(start, ids@, all, j as nat);
            assert(crate::combat::no_debts(all[j as int]));
            crate::combat::lemma_brought_by(list@, 0);
            crate::combat::lemma_survivor_bound(list@);
            crate::state::lemma_planet_index(front, ids@[j as int]);
            lemma_ships_total(front);
            lemma_ships_total(start);
        }
        match find_planet(planets, ids[j]) {
            Some(i) => {
                proof {
                    lemma_ships_part(front, i as int);
                }
                let p = planets[i];
                match resolve(list) {
                    Some(a) => {
                        let after = if p.owner == a.owner {
                            Planet { ships: p.ships + a.ships, ..p }
                        } else if p.ships >= a.ships {
                            Planet { ships: p.ships - a.ships, ..p }
                        } else {
                            Planet { owner: a.owner, ships: a.ships - p.ships, ..p }
                        };
                        planets[i] = after;
                        assert(after == after_battle(p, list@));
                    },
                    None => {
                        assert(front.update(i as int, p) =~= front);
                    },
                }
            },
            None => {},
        }
        j += 1;
    }
}

/// Ships on the planets that `player` holds.
pub open spec fn garrisoned(planets: Seq<Planet>, player: int) -> int
    decreases planets.len(),
{
    if planets.len() == 0 {
        0
    } else {
        garrisoned(planets.drop_last(), player) + (if planets.last().owner == player {
            planets.last().ships as int
        } else {
            0
        })
    }
}

/// Ships that `player` has in flight.
pub open spec fn flying(fleets: Seq<Fleet>, player: int) -> int
    decreases fleets.len(),
{
    if fleets.len() == 0 {
        0
    } else {
        flying(fleets.drop_last(), player) + (if fleets.last().owner == player {
            fleets.last().ships as int
        } else {
            0
        })
    }
}

/// All ships of `player`.
pub open spec fn score(g: GameModel, player: int) -> int {
    garrisoned(g.planets, player) + flying(g.fleets, player)
}

/// Whether `player` holds a planet or has a fleet.
pub open spec fn in_game(g: GameModel, player: int) -> bool {
    ||| exists|i: int| 0 <= i < g.planets.len() && (#[trigger] g.planets[i]).owner == player
    ||| exists|i: int| 0 <= i < g.fleets.len() && (#[trigger] g.fleets[i]).owner == player
}

pub open spec fn one_if(b: bool) -> int {
    if b {
        1
    } else {
        0
    }
}

/// How many of the four players are in the game.
pub open spec fn players_left(g: GameModel) -> int {
    one_if(in_game(g, 0)) + one_if(in_game(g, 1)) + one_if(in_game(g, 2)) + one_if(in_game(g, 3))
}

/// Whether the game ends with the tick of `cur_step` that left `g`: the last
/// step is near, or at most one player is left.
pub open spec fn game_over(g: GameModel, cur_step: i64, episode_steps: i64) -> bool {
    cur_step >= episode_steps - 2 || players_left(g) <= 1
}

/// 1 for a player that has ships, and as many as any of the `n` players; -1 for
/// the others.
pub open spec fn reward(g: GameModel, n: nat, player: int) -> int {
    if score(g, player) > 0 && forall|q: int| 0 <= q < n ==> #[trigger] score(g, q) <= score(g, player) {
        1
    } else {
        -1
    }
}

/// What each of `n` players gets at the end.
pub open spec fn all_rewards(g: GameModel, n: nat) -> Seq<i64> {
    Seq::new(n, |p: int| reward(g, n, p) as i64)
}

/// How a tick ended.
pub struct StepOutcome {
    pub terminated: bool,
    pub rewards: Option<Vec<i64>>,
}

fn is_in_game(g: &GameState, player: i64) -> (r: bool)
    ensures
        r == in_game(g@, player as int),
{
    let mut i: usize = 0;
    while i < g.planets.len()
        invariant
            i <= g.planets@.len(),
            forall|k: int| 0 <= k < i ==> (#[trigger] g@.planets[k]).owner != player,
        decreases g.planets@.len() - i,
    {
        if g.planets[i].owner == player {
            assert(g@.planets[i as int].owner == player);
            return true;
        }
        i += 1;
    }
    let mut j: usize = 0;
    while j < g.fleets.len()
        invariant
            j <= g.fleets@.len(),
            forall|k: int| 0 <= k < j ==> (#[trigger] g@.fleets[k]).owner != player,
        decreases g.fleets@.len() - j,
    {
        if g.fleets[j].owner == player {
            assert(g@.fleets[j as int].owner == player);
            return true;
        }
        j += 1;
    }
    false
}

fn count_players(g: &GameState) -> (n: u8)
    ensures
        n == players_left(g@),
{
    let mut n: u8 = 0;
    if is_in_game(g, 0) {
        n += 1;
    }
    if is_in_game(g, 1) {
        n += 1;
    }
    if is_in_game(g, 2) {
        n += 1;
    }
    if is_in_game(g, 3) {
        n += 1;
    }
    n
}

proof fn lemma_garrisoned(planets: Seq<Planet>, player: int)
    requires
        manned(planets),
    ensures
        0 <= garrisoned(planets, player) <= crate::state::planet_ships(planets),
    decreases planets.len(),
{
    if planets.len() > 0 {
        let front = planets.drop_last();
        assert forall|k: int| 0 <= k < front.len() implies (#[trigger] front[k]).ships >= 0 by {
            assert(front[k] == planets[k]);
        }
        lemma_garrisoned(front, player);
        assert(planets[planets.len() - 1].ships >= 0);
    }
}

pub proof fn lemma_flying(fleets: Seq<Fleet>, player: int)
    requires
        forall|i: int| 0 <= i < fleets.len() ==> (#[trigger] fleets[i]).ships >= 0,
    ensures
        0 <= flying(fleets, player) <= crate::state::fleet_ships(fleets),
    decreases fleets.len(),
{
    if fleets.len() > 0 {
        let front = fleets.drop_last();
        assert forall|k: int| 0 <= k < front.len() implies (#[trigger] front[k]).ships >= 0 by {
            assert(front[k] == fleets[k]);
        }
        lemma_flying(front, player);
        assert(fleets[fleets.len() - 1].ships >= 0);
    }
}

/// No player has more ships than there are.
pub proof fn lemma_score(g: GameModel, player: int)
    requires
        g.solvent(),
    ensures
        0 <= score(g, player) <= g.ships_in_play(),
{
    assert(manned(g.planets));
    lemma_garrisoned(g.planets, player);
    lemma_flying(g.fleets, player);
}

proof fn lemma_planets_take(planets: Seq<Planet>, i: int, player: int)
    requires
        manned(planets),
        0 <= i <= planets.len(),
    ensures
        0 <= garrisoned(planets.take(i), player) <= garrisoned(planets, player),
    decreases planets.len(),
{
    if i < planets.len() {
        let front = planets.drop_last();
        assert forall|k: int| 0 <= k < front.len() implies (#[trigger] front[k]).ships >= 0 by {
            assert(front[k] == planets[k]);
        }
        lemma_planets_take(front, i, player);
        assert(front.take(i) =~= planets.take(i));
        assert(planets[planets.len() - 1].ships >= 0);
    } else {
        assert(planets.take(i) =~= planets);
        lemma_garrisoned(planets, player);
    }
}

proof fn lemma_fleets_take(fleets: Seq<Fleet>, i: int, player: int)
    requires
        forall|i: int| 0 <= i < fleets.len() ==> (#[trigger] fleets[i]).ships >= 0,
        0 <= i <= fleets.len(),
    ensures
        0 <= flying(fleets.take(i), player) <= flying(fleets, player),
    decreases fleets.len(),
{
    if i < fleets.len() {
        let front = fleets.drop_last();
        assert forall|k: int| 0 <= k < front.len() implies (#[trigger] front[k]).ships >= 0 by {
            assert(front[k] == fleets[k]);
        }
        lemma_fleets_take(front, i, player);
        assert(front.take(i) =~= fleets.take(i));
        assert(fleets[fleets.len() - 1].ships >= 0);
    } else {
        assert(fleets.take(i) =~= fleets);
        lemma_flying(fleets, player);
    }
}

pub(crate) fn score_of(g: &GameState, player: usize) -> (total: i64)
    requires
        g@.solvent(),
        g@.ships_in_play() <= i64::MAX,
    ensures
        total == score(g@, player as int),
{
    proof {
        lemma_score(g@, player as int);
        lemma_garrisoned(g@.planets, player as int);
        lemma_flying(g@.fleets, player as int);
    }
    let mut total: i64 = 0;
    let mut i: usize = 0;
    assert(g@.planets.take(0) =~= Seq::<Planet>::empty());
    while i < g.planets.len()
        invariant
            i <= g.planets@.len(),
            manned(g@.planets),
            garrisoned(g@.planets, player as int) <= i64::MAX,
            total == garrisoned(g@.planets.take(i as int), player as int),
        decreases g.planets@.len() - i,
    {
        let p = g.planets[i];
        proof {
            assert(g@.planets.take(i + 1).drop_last() =~= g@.planets.take(i as int));
            assert(g@.planets.take(i + 1).last() == p);
            lemma_planets_take(g@.planets, i + 1, player as int);
        }
        if p.owner >= 0 && p.owner as u64 == player as u64 {
            total += p.ships;
        }
        i += 1;
    }
    assert(g@.planets.take(i as int) =~= g@.planets);
    let mut j: usize = 0;
    assert(g@.fleets.take(0) =~= Seq::<Fleet>::empty());
    while j < g.fleets.len()
        invariant
            j <= g.fleets@.len(),
            g@.solvent(),
            garrisoned(g@.planets, player as int) >= 0,
            garrisoned(g@.planets, player as int) + flying(g@.fleets, player as int) <= i64::MAX,
            total == garrisoned(g@.planets, player as int) + flying(g@.fleets.take(j as int), player as int),
        decreases g.fleets@.len() - j,
    {
        let f = g.fleets[j];
        proof {
            assert(g@.fleets.take(j + 1).drop_last() =~= g@.fleets.take(j as int));
            assert(g@.fleets.take(j + 1).last() == f);
            lemma_fleets_take(g@.fleets, j + 1, player as int);
        }
        if f.owner >= 0 && f.owner as u64 == player as u64 {
            total += f.ships;
        }
        j += 1;
    }
    assert(g@.fleets.take(j as int) =~= g@.fleets);
    total
}

fn reward_all(g: &GameState, num_agents: usize) -> (r: Vec<i64>)
    requires
        g@.solvent(),
        g@.ships_in_play() <= i64::MAX,
    ensures
        r@ == all_rewards(g@, num_agents as nat),
{
    let mut scores: Vec<i64> = Vec::new();
    let mut best: i64 = 0;
    let mut i: usize = 0;
    while i < num_agents
        invariant
            i <= num_agents,
            g@.solvent(),
            g@.ships_in_play() <= i64::MAX,
            scores@.len() == i,
            forall|q: int| 0 <= q < i ==> #[trigger] scores@[q] == score(g@, q),
            forall|q: int| 0 <= q < i ==> #[trigger] score(g@, q) <= best,
            best >= 0,
            best > 0 ==> exists|q: int| 0 <= q < i && #[trigger] score(g@, q) == best,
        decreases num_agents - i,
    {
        let s: i64 = score_of(g, i);
        scores.push(s);
        if s > best {
            best = s;
        }
        i += 1;
    }
    let mut r: Vec<i64> = Vec::new();
    let mut k: usize = 0;
    while k < num_agents
        invariant
            k <= num_agents,
            scores@.len() == num_agents,
            forall|q: int| 0 <= q < num_agents ==> #[trigger] scores@[q] == score(g@, q),
            forall|q: int| 0 <= q < num_agents ==> #[trigger] score(g@, q) <= best,
            best > 0 ==> exists|q: int| 0 <= q < num_agents && #[trigger] score(g@, q) == best,
            r@.len() == k,
            forall|q: int| 0 <= q < k ==> #[trigger] r@[q] == reward(g@, num_agents as nat, q),
        decreases num_agents - k,
    {
        assert(scores@[k as int] == score(g@, k as int));
        if scores[k] == best && best > 0 {
            r.push(1);
        } else {
            r.push(-1);
        }
        k += 1;
    }
    assert(r@ =~= all_rewards(g@, num_agents as nat));
    r
}

pub proof fn lemma_kept_ships(planets: Seq<Planet>, gone: Seq<i64>)
    requires
        manned(planets),
    ensures
        crate::state::planet_ships(crate::engine::kept_planets(planets, gone)) <= crate::state::planet_ships(planets),
    decreases planets.len(),
{
    if planets.len() > 0 {
        let front = planets.drop_last();
        assert forall|k: int| 0 <= k < front.len() implies (#[trigger] front[k]).ships >= 0 by {
            assert(front[k] == planets[k]);
        }
        lemma_kept_ships(front, gone);
        assert(planets[planets.len() - 1].ships >= 0);
        let kept = crate::engine::kept_planets(front, gone);
        assert(kept.push(planets.last()).drop_last() =~= kept);
    }
}

proof fn lemma_moved_ships(planets: Seq<Planet>, paths: Seq<PlanetPath>)
    requires
        paths.len() >= planets.len(),
    ensures
        crate::state::planet_ships(moved(planets, paths)) == crate::state::planet_ships(planets),
    decreases planets.len(),
{
    if planets.len() > 0 {
        lemma_moved_ships(planets.drop_last(), paths);
        assert(moved(planets, paths).drop_last() =~= moved(planets.drop_last(), paths));
    }
}

/// Moving the planets and taking out the comets that are gone keeps a game
/// valid and adds no ships.
pub proof fn lemma_planets_moved(g: GameModel, m: MotionModel)
    requires
        g.valid(),
        m.paths.len() == g.planets.len(),
    ensures
        planets_moved(g, m).valid(),
        crate::state::planet_ships(planets_moved(g, m).planets) <= crate::state::planet_ships(g.planets),
{
    let there = GameModel { planets: moved(g.planets, m.paths), ..g };
    assert forall|i: int| 0 <= i < there.planets.len() implies (#[trigger] there.planets[i]).ships >= 0
        && there.planets[i].production >= 0 && there.planets[i].id == there.initial_planets[i].id by {
        assert(g.planets[i].ships >= 0);
        assert(g.planets[i].id == g.initial_planets[i].id);
    }
    assert(there.valid());
    lemma_moved_ships(g.planets, m.paths);
    crate::engine::lemma_without_valid(there, m.expired);
    assert(manned(there.planets));
    lemma_kept_ships(there.planets, m.expired);
}

/// A tick ends with a valid game, and no ships come from flights and battles.
pub proof fn lemma_resolved(g: GameModel, m: MotionModel, moves: Seq<FleetMove>)
    requires
        g.valid(),
        m.paths.len() == g.planets.len(),
        g.ships_in_play() <= i64::MAX,
    ensures
        resolved(g, m, moves).valid(),
        resolved(g, m, moves).ships_in_play() <= g.ships_in_play(),
{
    let there = planets_moved(g, m);
    let lists = landings(g.fleets, moves, m.paths);
    let n = g.planets.len();
    lemma_planets_moved(g, m);
    lemma_flights_add_up(g.fleets, moves, m.paths);
    assert(all_count(lists));
    assert(manned(there.planets));
    assert(manned(g.planets));
    let left = still_flying(g.fleets, moves, m.paths);
    lemma_flying(left, 0);
    lemma_battles(there.planets, ids_of(g.planets), lists, n);
    let r = resolved(g, m, moves);
    assert forall|i: int| 0 <= i < r.planets.len() implies (#[trigger] r.planets[i]).ships >= 0
        && r.planets[i].production >= 0 && r.planets[i].id == r.initial_planets[i].id by {
        assert(there.planets[i].production >= 0);
        assert(there.planets[i].id == there.initial_planets[i].id);
    }
}

/// Ends the tick of `cur_step`: planets go their ways, comets that leave the
/// board are taken out, fleets fly, land or are lost, battles are fought, and
/// the game is over or goes on. Where it is over, each player gets its reward.
pub fn resolve_tick(
    g: &mut GameState,
    motion: &PlanetMotion,
    moves: &Vec<FleetMove>,
    num_agents: usize,
    cur_step: i64,
    episode_steps: i64,
) -> (out: StepOutcome)
    requires
        old(g)@.valid(),
        old(g)@.ships_in_play() <= i64::MAX,
        motion@.paths.len() == old(g)@.planets.len(),
        flights_fit(old(g)@.fleets, moves@, motion@.paths),
        episode_steps >= i64::MIN + 2,
        num_agents > 0 || !game_over(resolved(old(g)@, motion@, moves@), cur_step, episode_steps),
    ensures
        final(g)@ == resolved(old(g)@, motion@, moves@),
        final(g)@.valid(),
        out.terminated == game_over(final(g)@, cur_step, episode_steps),
        match out.rewards {
            Some(r) => out.terminated && r@ == all_rewards(final(g)@, num_agents as nat),
            None => !out.terminated,
        },
        cur_step >= episode_steps - 2 ==> out.terminated,
        cur_step < episode_steps - 2 ==> (out.terminated <==> forall|p: int, q: int|
            0 <= p < q < 4 ==> !(#[trigger] owns(final(g)@, p) && #[trigger] owns(final(g)@, q))),
        out.rewards matches Some(r) ==> {
            &&& r@.len() == num_agents
            &&& forall|p: int| 0 <= p < num_agents ==> #[trigger] r@[p] == 1 || r@[p] == -1
            &&& forall|p: int|
                0 <= p < num_agents ==> (#[trigger] r@[p] == 1 <==> score(final(g)@, p) > 0 && forall|q: int|
                    0 <= q < num_agents ==> #[trigger] score(final(g)@, q) <= score(final(g)@, p))
        },
{
    let ghost start = g@;
    let ghost lists_all = landings(start.fleets, moves@, motion@.paths);
    let ghost there = planets_moved(start, motion@);
    proof {
        lemma_resolved(start, motion@, moves@);
        lemma_planets_moved(start, motion@);
        lemma_flights_add_up(start.fleets, moves@, motion@.paths);
        lemma_flying(still_flying(start.fleets, moves@, motion@.paths), 0);
    }
    let (left, lists) = fly(&g.fleets, moves, &motion.paths);
    let mut ids: Vec<i64> = Vec::new();
    let mut i: usize = 0;
    while i < g.planets.len()
        invariant
            i <= g.planets@.len(),
            motion@.paths.len() == start.planets.len(),
            g@ == (GameModel { planets: g@.planets, ..start }),
            g@.planets.len() == start.planets.len(),
            ids@ =~= ids_of(start.planets).take(i as int),
            forall|k: int| 0 <= k < i ==> #[trigger] g@.planets[k] == moved(start.planets, motion@.paths)[k],
            forall|k: int| i <= k < start.planets.len() ==> #[trigger] g@.planets[k] == start.planets[k],
        decreases g.planets@.len() - i,
    {
        let p = g.planets[i];
        assert(p == start.planets[i as int]);
        ids.push(p.id);
        let to = motion.paths[i].to;
        g.planets[i] = Planet { x: to.x, y: to.y, ..p };
        i += 1;
    }
    assert(g@.planets =~= moved(start.planets, motion@.paths));
    assert(ids@ =~= ids_of(start.planets));
    if motion.expired.len() > 0 {
        remove_comets(g, &motion.expired);
    }
    assert(g@ == there);
    g.fleets = left;
    assert(lists_model(lists@).len() == start.planets.len());
    fight(&mut g.planets, &ids, &lists);
    assert(g@ == resolved(start, motion@, moves@));
    let late = cur_step >= episode_steps - 2;
    let terminated = late || count_players(g) <= 1;
    proof {
        lemma_game_over(g@, cur_step, episode_steps);
    }
    let rewards = if terminated {
        Some(reward_all(g, num_agents))
    } else {
        None
    };
    StepOutcome { terminated, rewards }
}

/// `player` owns a planet or a fleet.
pub open spec fn owns(g: GameModel, player: int) -> bool {
    (exists|i: int| 0 <= i < g.planets.len() && (#[trigger] g.planets[i]).owner == player) || (exists|i: int|
        0 <= i < g.fleets.len() && (#[trigger] g.fleets[i]).owner == player)
}

/// At the last step the game is over. Before it, the game goes on for as long as two
/// of the four players own a planet or a fleet, and is over as soon as no two do.
pub proof fn lemma_game_over(g: GameModel, cur_step: i64, episode_steps: i64)
    ensures
        cur_step >= episode_steps - 2 ==> game_over(g, cur_step, episode_steps),
        cur_step < episode_steps - 2 && (exists|p: int, q: int|
            0 <= p < q < 4 && #[trigger] owns(g, p) && #[trigger] owns(g, q)) ==> !game_over(g, cur_step, episode_steps),
        (forall|p: int, q: int| 0 <= p < q < 4 ==> !(#[trigger] owns(g, p) && #[trigger] owns(g, q))) ==> game_over(
            g,
            cur_step,
            episode_steps,
        ),
{
    assert(owns(g, 0) == in_game(g, 0));
    assert(owns(g, 1) == in_game(g, 1));
    assert(owns(g, 2) == in_game(g, 2));
    assert(owns(g, 3) == in_game(g, 3));
    if exists|p: int, q: int| 0 <= p < q < 4 && #[trigger] owns(g, p) && #[trigger] owns(g, q) {
        let (p, q) = choose|p: int, q: int| 0 <= p < q < 4 && #[trigger] owns(g, p) && #[trigger] owns(g, q);
        assert(p == 0 || p == 1 || p == 2);
        assert(q == 1 || q == 2 || q == 3);
    }
}

/// A planet adds its ships to the score of its owner, and so does a fleet; neither
/// changes the score of anybody else.
pub proof fn lemma_score_more(g: GameModel, p: Planet, f: Fleet, player: int)
    ensures
        g.planets.len() == 0 && g.fleets.len() == 0 ==> score(g, player) == 0,
        p.owner == player ==> score(GameModel { planets: g.planets.push(p), ..g }, player) == score(g, player) + p.ships,
        p.owner != player ==> score(GameModel { planets: g.planets.push(p), ..g }, player) == score(g, player),
        f.owner == player ==> score(GameModel { fleets: g.fleets.push(f), ..g }, player) == score(g, player) + f.ships,
        f.owner != player ==> score(GameModel { fleets: g.fleets.push(f), ..g }, player) == score(g, player),
{
    assert(g.planets.push(p).drop_last() =~= g.planets);
    assert(g.fleets.push(f).drop_last() =~= g.fleets);
}

/// A reward is 1 or -1; it is 1 just for those players that have ships, and no fewer
/// than any other player.
pub proof fn lemma_reward_of_best(g: GameModel, n: nat, p: int)
    ensures
        reward(g, n, p) == 1 || reward(g, n, p) == -1,
        reward(g, n, p) == 1 <==> score(g, p) > 0 && forall|q: int|
            0 <= q < n ==> #[trigger] score(g, q) <= score(g, p),
        all_rewards(g, n).len() == n,
        0 <= p < n ==> all_rewards(g, n)[p] == reward(g, n, p),
{
}

/// A flight ends on a planet just where it meets that planet, which can be hit, and
/// meets none that is listed before it and can be hit. Else it is lost just where it
/// leaves the board or goes through the sun.
pub proof fn lemma_fate(paths: Seq<PlanetPath>, m: FleetMove)
    ensures
        match fate(paths, m) {
            Fate::Lands { planet } => 0 <= planet < paths.len() && paths[planet].check && m.contacts@[planet] && forall|
                i: int,
            |
                0 <= i < planet ==> !((#[trigger] paths[i]).check && m.contacts@[i]),
            Fate::Lost => (forall|i: int| 0 <= i < paths.len() ==> !((#[trigger] paths[i]).check && m.contacts@[i])) && (
            m.sun || !m.to.within_board()),
            Fate::Flies => (forall|i: int| 0 <= i < paths.len() ==> !((#[trigger] paths[i]).check && m.contacts@[i]))
                && !m.sun && m.to.within_board(),
        },
{
    lemma_contact_first(paths, m.contacts@, paths.len());
}

proof fn lemma_contact_first(paths: Seq<PlanetPath>, contacts: Seq<bool>, n: nat)
    ensures
        match first_contact(paths, contacts, n) {
            Some(j) => 0 <= j < n && paths[j].check && contacts[j] && forall|i: int|
                0 <= i < j ==> !((#[trigger] paths[i]).check && contacts[i]),
            None => forall|i: int| 0 <= i < n ==> !((#[trigger] paths[i]).check && contacts[i]),
        },
    decreases n,
{
    if n > 0 {
        lemma_contact_first(paths, contacts, (n - 1) as nat);
    }
}

/// A fleet that flies on stays as it is, but for where it is; one that lands adds its
/// ships to what lands on that planet, and nothing to what lands on others; one that is
/// lost is nowhere.
pub proof fn lemma_one_more_flight(
    fleets: Seq<Fleet>,
    moves: Seq<FleetMove>,
    f: Fleet,
    m: FleetMove,
    paths: Seq<PlanetPath>,
    j: int,
)
    requires
        moves.len() == fleets.len(),
    ensures
        ({
            let (all, ways) = (fleets.push(f), moves.push(m));
            &&& fate(paths, m) is Flies ==> still_flying(all, ways, paths) == still_flying(fleets, moves, paths).push(
                Fleet {
                    id: f.id,
                    owner: f.owner,
                    x: m.to.x,
                    y: m.to.y,
                    angle: f.angle,
                    from_planet_id: f.from_planet_id,
                    ships: f.ships,
                },
            )
            &&& !(fate(paths, m) is Flies) ==> still_flying(all, ways, paths) == still_flying(fleets, moves, paths)
            &&& fate(paths, m) == (Fate::Lands { planet: j }) ==> landing(all, ways, paths, j) == landing(
                fleets,
                moves,
                paths,
                j,
            ).push(Arrival { owner: f.owner, ships: f.ships })
            &&& fate(paths, m) != (Fate::Lands { planet: j }) ==> landing(all, ways, paths, j) == landing(
                fleets,
                moves,
                paths,
                j,
            )
        }),
{
    let (all, ways) = (fleets.push(f), moves.push(m));
    assert(all.drop_last() =~= fleets);
    lemma_flights_same(fleets, moves, ways, paths, j);
}

proof fn lemma_flights_same(
    fleets: Seq<Fleet>,
    v: Seq<FleetMove>,
    w: Seq<FleetMove>,
    paths: Seq<PlanetPath>,
    j: int,
)
    requires
        forall|i: int| 0 <= i < fleets.len() ==> #[trigger] v[i] == w[i],
    ensures
        still_flying(fleets, v, paths) == still_flying(fleets, w, paths),
        landing(fleets, v, paths, j) == landing(fleets, w, paths, j),
    decreases fleets.len(),
{
    if fleets.len() > 0 {
        lemma_flights_same(fleets.drop_last(), v, w, paths, j);
        assert(v[fleets.len() - 1] == w[fleets.len() - 1]);
    }
}

/// What a battle does to a planet. Where nobody survives the meeting of the fleets it
/// stays as it is. The survivor joins a garrison of its own. A foreign garrison pays
/// ship for ship: it keeps the planet where it has as many ships or more, and else the
/// survivor takes it with those that are left. Nothing else about the planet changes.
pub proof fn lemma_battle(p: Planet, list: Seq<Arrival>)
    requires
        p.ships >= 0,
        crate::combat::no_debts(list),
        p.ships + crate::combat::brought(list) <= i64::MAX,
    ensures
        ({
            let q = after_battle(p, list);
            &&& q.id == p.id && q.x == p.x && q.y == p.y && q.radius == p.radius && q.production == p.production
            &&& match crate::combat::survivor(list) {
                None => q.owner == p.owner && q.ships == p.ships,
                Some((owner, ships)) => {
                    &&& owner == p.owner ==> q.owner == p.owner && q.ships == p.ships + ships
                    &&& owner != p.owner && ships <= p.ships ==> q.owner == p.owner && q.ships == p.ships - ships
                    &&& owner != p.owner && ships > p.ships ==> q.owner == owner && q.ships == ships - p.ships
                },
            }
        }),
{
    crate::combat::lemma_survivor_bound(list);
}

/// Each planet fights what landed on it, and nothing else: where no two planets share
/// an id, the planet with the `j`-th id meets the `j`-th list, and a planet with none
/// of the ids stays as it is.
pub proof fn lemma_each_battle(planets: Seq<Planet>, ids: Seq<i64>, lists: Seq<Seq<Arrival>>, n: nat)
    requires
        n <= ids.len(),
        crate::game::distinct(planets),
        forall|i: int, j: int| 0 <= i < j < ids.len() ==> #[trigger] ids[i] != #[trigger] ids[j],
    ensures
        after_battles(planets, ids, lists, n).len() == planets.len(),
        forall|i: int, j: int|
            0 <= i < planets.len() && 0 <= j < n && (#[trigger] planets[i]).id == #[trigger] ids[j] ==> after_battles(
                planets,
                ids,
                lists,
                n,
            )[i] == after_battle(planets[i], lists[j]),
        forall|i: int|
            0 <= i < planets.len() && (forall|j: int| 0 <= j < n ==> #[trigger] ids[j] != planets[i].id)
                ==> #[trigger] after_battles(planets, ids, lists, n)[i] == planets[i],
        forall|i: int|
            0 <= i < planets.len() ==> (#[trigger] after_battles(planets, ids, lists, n)[i]).id == planets[i].id,
    decreases n,
{
    if n > 0 {
        let k = (n - 1) as nat;
        lemma_each_battle(planets, ids, lists, k);
        let front = after_battles(planets, ids, lists, k);
        let all = after_battles(planets, ids, lists, n);
        crate::state::lemma_planet_index(front, ids[n - 1]);
        let at = crate::state::planet_index(front, ids[n - 1]);
        if let Some(a) = at {
            assert(front[a].id == planets[a].id);
            assert forall|j: int| 0 <= j < k implies #[trigger] ids[j] != planets[a].id by {
                assert(ids[j] != ids[n - 1]);
            }
            assert(front[a] == planets[a]);
        }
        assert forall|i: int| 0 <= i < planets.len() && at != Some(i) implies #[trigger] planets[i].id != ids[n - 1] by {
            assert(front[i].id == planets[i].id);
            if let Some(a) = at {
                if i < a {
                    assert(planets[i].id != planets[a].id);
                } else {
                    assert(planets[a].id != planets[i].id);
                }
            }
        }
        assert forall|i: int, j: int|
            0 <= i < planets.len() && 0 <= j < n && (#[trigger] planets[i]).id == #[trigger] ids[j] implies all[i]
            == after_battle(planets[i], lists[j]) by {
            if j == n - 1 {
                assert(at == Some(i));
            } else {
                assert(ids[j] != ids[n - 1]);
                assert(at != Some(i));
                assert(all[i] == front[i]);
            }
        }
        assert forall|i: int|
            0 <= i < planets.len() && (forall|j: int| 0 <= j < n ==> #[trigger] ids[j] != planets[i].id) implies #[trigger] all[i]
            == planets[i] by {
            assert(ids[n - 1] != planets[i].id);
            assert(at != Some(i)) by {
                if at == Some(i) {
                    assert(front[i].id == planets[i].id);
                }
            }
            assert(all[i] == front[i]);
        }
        assert forall|i: int| 0 <= i < planets.len() implies (#[trigger] all[i]).id == planets[i].id by {
            assert(front[i].id == planets[i].id);
        }
    }
}

/// In a tick in which no comet leaves the board, every planet goes where its way ends
/// and fights what lands on it there, and the fleets that fly on are the ones left.
pub proof fn lemma_tick_of_planet(g: GameModel, m: MotionModel, moves: Seq<FleetMove>, i: int)
    requires
        g.valid(),
        crate::game::distinct(g.planets),
        m.paths.len() == g.planets.len(),
        m.expired.len() == 0,
        0 <= i < g.planets.len(),
    ensures
        resolved(g, m, moves).planets.len() == g.planets.len(),
        resolved(g, m, moves).planets[i] == after_battle(
            Planet {
                id: g.planets[i].id,
                owner: g.planets[i].owner,
                x: m.paths[i].to.x,
                y: m.paths[i].to.y,
                radius: g.planets[i].radius,
                ships: g.planets[i].ships,
                production: g.planets[i].production,
            },
            landing(g.fleets, moves, m.paths, i),
        ),
        resolved(g, m, moves).fleets == still_flying(g.fleets, moves, m.paths),
        resolved(g, m, moves).next_fleet_id == g.next_fleet_id,
        resolved(g, m, moves).comets == g.comets,
        resolved(g, m, moves).comet_planet_ids == g.comet_planet_ids,
        resolved(g, m, moves).initial_planets == g.initial_planets,
        resolved(g, m, moves).angular_velocity == g.angular_velocity,
{
    let there = moved(g.planets, m.paths);
    let ids = ids_of(g.planets);
    let lists = landings(g.fleets, moves, m.paths);
    assert forall|a: int, b: int| 0 <= a < b < there.len() implies (#[trigger] there[a]).id != (#[trigger] there[b]).id by {
        assert(g.planets[a].id != g.planets[b].id);
    }
    assert forall|a: int, b: int| 0 <= a < b < ids.len() implies #[trigger] ids[a] != #[trigger] ids[b] by {
        assert(g.planets[a].id != g.planets[b].id);
    }
    lemma_each_battle(there, ids, lists, g.planets.len());
    assert(there[i].id == ids[i]);
}

proof fn lemma_top_score(g: GameModel, n: nat) -> (top: int)
    requires
        n > 0,
    ensures
        0 <= top < n,
        forall|q: int| 0 <= q < n ==> #[trigger] score(g, q) <= score(g, top),
    decreases n,
{
    if n == 1 {
        0
    } else {
        let t = lemma_top_score(g, (n - 1) as nat);
        if score(g, n - 1) > score(g, t) {
            n - 1
        } else {
            t
        }
    }
}

/// Where a player has ships, somebody wins; where nobody has any, all lose.
/// Players with equal scores get equal rewards.
pub proof fn lemma_rewards(g: GameModel, n: nat)
    ensures
        (exists|p: int| 0 <= p < n && #[trigger] score(g, p) > 0) ==> exists|p: int|
            0 <= p < n && #[trigger] reward(g, n, p) == 1,
        (forall|p: int| 0 <= p < n ==> #[trigger] score(g, p) <= 0) ==> forall|p: int|
            0 <= p < n ==> #[trigger] reward(g, n, p) == -1,
        forall|p: int, q: int|
            score(g, p) == score(g, q) ==> #[trigger] reward(g, n, p) == #[trigger] reward(g, n, q),
{
    if exists|p: int| 0 <= p < n && #[trigger] score(g, p) > 0 {
        let p = choose|p: int| 0 <= p < n && #[trigger] score(g, p) > 0;
        let top = lemma_top_score(g, n);
        assert(score(g, p) <= score(g, top));
        assert(reward(g, n, top) == 1);
    }
}

} // verus!
