//! The game state and its constants.

use crate::double::{Double, Point};
use vstd::prelude::*;

verus! {

pub const COMET_PRODUCTION: i64 = 1;

pub const MIN_PLANET_GROUPS: i64 = 5;

pub const MAX_PLANET_GROUPS: i64 = 10;

pub const MIN_STATIC_GROUPS: i64 = 3;

/// The bit pattern of 1.0, the radius of a comet.
pub const COMET_RADIUS: u64 = 0x3ff0_0000_0000_0000;

/// The bit pattern of -99.0, where a comet waits off the board.
pub const OFF_BOARD: u64 = 0xc058_c000_0000_0000;

/// The owner of a planet that nobody holds.
pub const NEUTRAL: i64 = -1;

#[derive(Clone, Copy, PartialEq, Eq, Structural, Debug)]
pub struct Planet {
    pub id: i64,
    pub owner: i64,
    pub x: Double,
    pub y: Double,
    pub radius: Double,
    pub ships: i64,
    pub production: i64,
}

#[derive(Clone, Copy, PartialEq, Eq, Structural, Debug)]
pub struct Fleet {
    pub id: i64,
    pub owner: i64,
    pub x: Double,
    pub y: Double,
    pub angle: Double,
    pub from_planet_id: i64,
    pub ships: i64,
}

/// Comets that spawned together, with the path of each and how far they are
/// along it.
pub struct CometGroup {
    pub planet_ids: Vec<i64>,
    pub paths: Vec<Vec<Point>>,
    pub path_index: i64,
}

/// One launch order.
#[derive(Clone, Copy, PartialEq, Eq, Structural, Debug)]
pub struct Move {
    pub from_id: i64,
    pub angle: Double,
    pub ships: i64,
}

#[derive(Clone, Copy, PartialEq, Eq, Structural, Debug)]
pub struct Config {
    pub ship_speed: Double,
    pub episode_steps: i64,
    pub comet_speed: Double,
}

impl Default for Config {
    /// Ships of speed 6.0, 500 steps, comets of speed 4.0.
    fn default() -> (c: Config)
        ensures
            c.ship_speed.bits == 0x4018_0000_0000_0000,
            c.episode_steps == 500,
            c.comet_speed.bits == 0x4010_0000_0000_0000,
    {
        Config {
            ship_speed: Double { bits: 0x4018_0000_0000_0000 },
            episode_steps: 500,
            comet_speed: Double { bits: 0x4010_0000_0000_0000 },
        }
    }
}

/// Comets to spawn: the ships on each and their paths.
pub struct SpawnInjection {
    pub ships: i64,
    pub paths: Vec<Vec<Point>>,
}

pub struct GameState {
    pub planets: Vec<Planet>,
    pub fleets: Vec<Fleet>,
    pub next_fleet_id: i64,
    pub comets: Vec<CometGroup>,
    pub comet_planet_ids: Vec<i64>,
    pub initial_planets: Vec<Planet>,
    pub angular_velocity: Double,
}

/// What a comet group is.
#[verifier::ext_equal]
pub struct GroupModel {
    pub planet_ids: Seq<i64>,
    pub paths: Seq<Seq<Point>>,
    pub path_index: int,
}

/// What a game state is.
#[verifier::ext_equal]
pub struct GameModel {
    pub planets: Seq<Planet>,
    pub fleets: Seq<Fleet>,
    pub next_fleet_id: int,
    pub comets: Seq<GroupModel>,
    pub comet_planet_ids: Seq<i64>,
    pub initial_planets: Seq<Planet>,
    pub angular_velocity: Double,
}

/// The paths as sequences.
pub open spec fn paths_model(paths: Seq<Vec<Point>>) -> Seq<Seq<Point>> {
    Seq::new(paths.len(), |i: int| paths[i]@)
}

impl View for CometGroup {
    type V = GroupModel;

    open spec fn view(&self) -> GroupModel {
        GroupModel {
            planet_ids: self.planet_ids@,
            paths: paths_model(self.paths@),
            path_index: self.path_index as int,
        }
    }
}

/// The groups as models.
pub open spec fn groups_model(comets: Seq<CometGroup>) -> Seq<GroupModel> {
    Seq::new(comets.len(), |i: int| comets[i]@)
}

impl View for GameState {
    type V = GameModel;

    open spec fn view(&self) -> GameModel {
        GameModel {
            planets: self.planets@,
            fleets: self.fleets@,
            next_fleet_id: self.next_fleet_id as int,
            comets: groups_model(self.comets@),
            comet_planet_ids: self.comet_planet_ids@,
            initial_planets: self.initial_planets@,
            angular_velocity: self.angular_velocity,
        }
    }
}

impl GroupModel {
    /// Every comet has a path, and the position along it is at the start or on.
    pub open spec fn valid(self) -> bool {
        self.planet_ids.len() <= self.paths.len() && self.path_index >= -1
    }
}

impl GameModel {
    /// Each planet stands beside its initial copy.
    pub open spec fn aligned(self) -> bool {
        &&& self.planets.len() == self.initial_planets.len()
        &&& forall|i: int|
            0 <= i < self.planets.len() ==> (#[trigger] self.planets[i]).id == self.initial_planets[i].id
    }

    /// No ships are owed anywhere: neither on a planet nor in flight, and no
    /// planet loses ships as it produces.
    pub open spec fn solvent(self) -> bool {
        &&& forall|i: int|
            0 <= i < self.planets.len() ==> (#[trigger] self.planets[i]).ships >= 0 && self.planets[i].production >= 0
        &&& forall|i: int| 0 <= i < self.fleets.len() ==> (#[trigger] self.fleets[i]).ships >= 0
    }

    /// Every comet has a path.
    pub open spec fn guided(self) -> bool {
        forall|i: int| 0 <= i < self.comets.len() ==> (#[trigger] self.comets[i]).valid()
    }

    /// No ships are owed anywhere, planets stand beside their initial copies,
    /// and every comet has a path.
    pub open spec fn valid(self) -> bool {
        &&& self.aligned()
        &&& self.solvent()
        &&& self.guided()
    }

    /// Ships on planets and in flight.
    pub open spec fn ships_in_play(self) -> int {
        planet_ships(self.planets) + fleet_ships(self.fleets)
    }
}

/// Ships on the planets.
pub open spec fn planet_ships(planets: Seq<Planet>) -> int
    decreases planets.len(),
{
    if planets.len() == 0 {
        0
    } else {
        planet_ships(planets.drop_last()) + planets.last().ships
    }
}

/// Ships in the fleets.
pub open spec fn fleet_ships(fleets: Seq<Fleet>) -> int
    decreases fleets.len(),
{
    if fleets.len() == 0 {
        0
    } else {
        fleet_ships(fleets.drop_last()) + fleets.last().ships
    }
}

/// What the planets that somebody holds produce in a tick.
pub open spec fn held_production(planets: Seq<Planet>) -> int
    decreases planets.len(),
{
    if planets.len() == 0 {
        0
    } else {
        held_production(planets.drop_last()) + (if planets.last().owner != -1 {
            planets.last().production as int
        } else {
            0
        })
    }
}

/// A planet more adds its ships to those on the planets, and what it produces to what
/// is produced, unless it is nobody's; a fleet more adds its ships to those in flight.
pub proof fn lemma_one_more(planets: Seq<Planet>, p: Planet, fleets: Seq<Fleet>, f: Fleet)
    ensures
        planet_ships(planets.push(p)) == planet_ships(planets) + p.ships,
        planet_ships(Seq::empty()) == 0,
        fleet_ships(fleets.push(f)) == fleet_ships(fleets) + f.ships,
        fleet_ships(Seq::empty()) == 0,
        p.owner != -1 ==> held_production(planets.push(p)) == held_production(planets) + p.production,
        p.owner == -1 ==> held_production(planets.push(p)) == held_production(planets),
        held_production(Seq::empty()) == 0,
{
    assert(planets.push(p).drop_last() =~= planets);
    assert(fleets.push(f).drop_last() =~= fleets);
}

/// The place of the first planet with the given id.
pub open spec fn planet_index(planets: Seq<Planet>, id: i64) -> Option<int>
    decreases planets.len(),
{
    if planets.len() == 0 {
        None
    } else {
        match planet_index(planets.drop_last(), id) {
            Some(i) => Some(i),
            None => if planets.last().id == id {
                Some(planets.len() - 1)
            } else {
                None
            },
        }
    }
}

pub proof fn lemma_planet_index(planets: Seq<Planet>, id: i64)
    ensures
        match planet_index(planets, id) {
            Some(i) => 0 <= i < planets.len() && planets[i].id == id && forall|j: int|
                0 <= j < i ==> (#[trigger] planets[j]).id != id,
            None => forall|j: int| 0 <= j < planets.len() ==> (#[trigger] planets[j]).id != id,
        },
    decreases planets.len(),
{
    if planets.len() > 0 {
        let front = planets.drop_last();
        lemma_planet_index(front, id);
        assert forall|j: int| 0 <= j < front.len() implies #[trigger] planets[j] == front[j] by {}
    }
}

/// The place of the first planet with the given id.
pub fn find_planet(planets: &Vec<Planet>, id: i64) -> (r: Option<usize>)
    ensures
        match r {
            Some(i) => planet_index(planets@, id) == Some(i as int),
            None => planet_index(planets@, id) is None,
        },
        match r {
            Some(i) => i < planets@.len() && planets@[i as int].id == id && forall|j: int|
                0 <= j < i ==> (#[trigger] planets@[j]).id != id,
            None => forall|j: int| 0 <= j < planets@.len() ==> (#[trigger] planets@[j]).id != id,
        },
{
    let mut i: usize = 0;
    proof {
        lemma_planet_index(planets@, id);
    }
    while i < planets.len()
        invariant
            i <= planets@.len(),
            forall|j: int| 0 <= j < i ==> (#[trigger] planets@[j]).id != id,
        decreases planets@.len() - i,
    {
        if planets[i].id == id {
            proof {
                lemma_planet_index(planets@, id);
            }
            return Some(i);
        }
        i += 1;
    }
    proof {
        lemma_planet_index(planets@, id);
    }
    None
}

/// Whether `ids` holds `id`.
pub fn has_id(ids: &Vec<i64>, id: i64) -> (r: bool)
    ensures
        r == ids@.contains(id),
{
    let mut i: usize = 0;
    while i < ids.len()
        invariant
            i <= ids@.len(),
            forall|j: int| 0 <= j < i ==> ids@[j] != id,
        decreases ids@.len() - i,
    {
        if ids[i] == id {
            return true;
        }
        i += 1;
    }
    false
}

fn copy_path(path: &Vec<Point>) -> (r: Vec<Point>)
    ensures
        r@ == path@,
{
    let mut r: Vec<Point> = Vec::new();
    r.extend_from_slice(path.as_slice());
    assert(r@ =~= path@);
    r
}

/// A copy of the paths.
pub fn copy_paths(paths: &Vec<Vec<Point>>) -> (r: Vec<Vec<Point>>)
    ensures
        paths_model(r@) == paths_model(paths@),
{
    let mut r: Vec<Vec<Point>> = Vec::new();
    let mut k: usize = 0;
    while k < paths.len()
        invariant
            k <= paths@.len(),
            r@.len() == k,
            forall|j: int| 0 <= j < k ==> (#[trigger] r@[j])@ == paths@[j]@,
        decreases paths@.len() - k,
    {
        r.push(copy_path(&paths[k]));
        k += 1;
    }
    assert(paths_model(r@) =~= paths_model(paths@));
    r
}

/// A copy of the ids.
pub fn copy_ids(ids: &Vec<i64>) -> (r: Vec<i64>)
    ensures
        r@ == ids@,
{
    let mut r: Vec<i64> = Vec::new();
    r.extend_from_slice(ids.as_slice());
    assert(r@ =~= ids@);
    r
}

/// A copy of the game.
pub fn copy_state(g: &GameState) -> (r: GameState)
    ensures
        r@ == g@,
{
    let mut planets: Vec<Planet> = Vec::new();
    planets.extend_from_slice(g.planets.as_slice());
    let mut fleets: Vec<Fleet> = Vec::new();
    fleets.extend_from_slice(g.fleets.as_slice());
    let mut initial_planets: Vec<Planet> = Vec::new();
    initial_planets.extend_from_slice(g.initial_planets.as_slice());
    let mut comets: Vec<CometGroup> = Vec::new();
    let mut i: usize = 0;
    while i < g.comets.len()
        invariant
            i <= g.comets@.len(),
            comets@.len() == i,
            forall|j: int| 0 <= j < i ==> (#[trigger] comets@[j])@ == g.comets@[j]@,
        decreases g.comets@.len() - i,
    {
        let c = &g.comets[i];
        comets.push(
            CometGroup {
                planet_ids: copy_ids(&c.planet_ids),
                paths: copy_paths(&c.paths),
                path_index: c.path_index,
            },
        );
        i += 1;
    }
    let r = GameState {
        planets,
        fleets,
        next_fleet_id: g.next_fleet_id,
        comets,
        comet_planet_ids: copy_ids(&g.comet_planet_ids),
        initial_planets,
        angular_velocity: g.angular_velocity,
    };
    assert(r@.planets =~= g@.planets);
    assert(r@.fleets =~= g@.fleets);
    assert(r@.initial_planets =~= g@.initial_planets);
    assert(r@.comets =~= g@.comets);
    r
}

} // verus!
