//! The map of a game, drawn from its seed.
//!
//! Planets come in groups of four, placed symmetrically. First come three
//! groups that stand still, then others at random until there are enough and
//! one of them goes round. `MapGen` makes the draws and keeps the map; the
//! caller computes the positions and says which of them fit.

use crate::double::Double;
use crate::pyrandom::PyRandom;
use crate::state::{GameState, Planet, MAX_PLANET_GROUPS, MIN_PLANET_GROUPS, MIN_STATIC_GROUPS, NEUTRAL};
use vstd::prelude::*;

verus! {

/// Tries at groups that stand still.
pub const STATIC_TRIES: i64 = 5000;

/// Tries at other groups.
pub const FILL_TRIES: i64 = 4999;

/// Ships on the home planets.
pub const HOME_SHIPS: i64 = 10;

/// What the map needs next.
#[derive(Clone, Copy, PartialEq, Eq, Structural, Debug)]
pub enum Phase {
    Static,
    Fill,
    Done,
}

/// A try at a group: whether it is one of those that stand still, what it
/// produces, and its ships once they are drawn.
#[derive(Clone, Copy, PartialEq, Eq, Debug)]
pub struct Attempt {
    pub still: bool,
    pub production: i64,
    pub ships: Option<i64>,
}

/// A map in the making. What was drawn for the running try stays with it until its
/// group is added.
pub struct MapGen {
    rng: PyRandom,
    wanted: i64,
    planets: Vec<Planet>,
    static_groups: i64,
    static_tries: i64,
    fill_tries: i64,
    has_orbiting: bool,
    attempt: Option<Attempt>,
}

/// What a map in the making is.
#[verifier::ext_equal]
pub struct MapModel {
    pub rng: PyRandom,
    pub wanted: i64,
    pub planets: Seq<Planet>,
    pub static_groups: int,
    pub static_tries: int,
    pub fill_tries: int,
    pub has_orbiting: bool,
    pub attempt: Option<Attempt>,
}

/// The four planets of a group at (`x`, `y`), where `mx` and `my` are the
/// coordinates mirrored on the board. The first one has its coordinates
/// swapped.
pub open spec fn group(
    id0: int,
    x: Double,
    y: Double,
    mx: Double,
    my: Double,
    radius: Double,
    ships: i64,
    production: i64,
) -> Seq<Planet> {
    seq![
        Planet { id: id0 as i64, owner: NEUTRAL, x: y, y: x, radius, ships, production },
        Planet { id: (id0 + 1) as i64, owner: NEUTRAL, x: mx, y, radius, ships, production },
        Planet { id: (id0 + 2) as i64, owner: NEUTRAL, x, y: my, radius, ships, production },
        Planet { id: (id0 + 3) as i64, owner: NEUTRAL, x: my, y: mx, radius, ships, production },
    ]
}

/// Planet `i` of a map: it is numbered by its place and belongs to nobody,
/// produces 1 to 5 and has 5 to 99 ships.
pub open spec fn drawn(planets: Seq<Planet>, i: int) -> bool {
    let p = planets[i];
    &&& p.id == i
    &&& p.owner == NEUTRAL
    &&& 1 <= p.production <= 5
    &&& 5 <= p.ships <= 99
}

/// Planet `i` of a map is like the first planet of its group of four, and lies in
/// symmetry to it: each coordinate of the group is that of two of its planets.
pub open spec fn grouped(planets: Seq<Planet>, i: int) -> bool {
    let p = planets[i];
    let first = planets[i - i % 4];
    &&& p.production == first.production
    &&& p.ships == first.ships
    &&& p.radius == first.radius
    &&& i % 4 == 1 ==> p.y == first.x
    &&& i % 4 == 2 ==> p.x == first.y
    &&& i % 4 == 3 ==> p.x == planets[i - 1].y && p.y == planets[i - 2].x
}

impl MapModel {
    /// Groups on the map.
    pub open spec fn groups(self) -> int {
        self.planets.len() as int / 4
    }

    /// Planets come in groups of four, each drawn as it should be; those after the
    /// groups that stand still have at most 30 ships. No try has added more than one
    /// group, and the running one has not added any.
    pub open spec fn valid(self) -> bool {
        &&& MIN_PLANET_GROUPS <= self.wanted <= MAX_PLANET_GROUPS
        &&& self.planets.len() == 4 * self.groups()
        &&& 0 <= self.static_groups <= self.static_tries <= STATIC_TRIES
        &&& self.static_groups <= MIN_STATIC_GROUPS
        &&& 0 <= self.fill_tries <= FILL_TRIES
        &&& self.static_groups <= self.groups() <= self.static_groups + self.fill_tries
        &&& self.fill_tries > 0 ==> self.static_groups == MIN_STATIC_GROUPS || self.static_tries == STATIC_TRIES
        &&& forall|i: int| 0 <= i < self.planets.len() ==> #[trigger] drawn(self.planets, i)
        &&& forall|i: int| 0 <= i < self.planets.len() ==> #[trigger] grouped(self.planets, i)
        &&& forall|i: int|
            4 * self.static_groups <= i < self.planets.len() ==> (#[trigger] self.planets[i]).ships <= 30
        &&& match self.attempt {
            Some(t) => {
                &&& 1 <= t.production <= 5
                &&& t.ships matches Some(n) ==> 5 <= n <= (if t.still {
                    99int
                } else {
                    30int
                })
                &&& if t.still {
                    self.static_groups < self.static_tries && self.static_groups < MIN_STATIC_GROUPS
                        && self.fill_tries == 0
                } else {
                    self.groups() < self.static_groups + self.fill_tries
                }
            },
            None => true,
        }
    }

    /// Three groups that stand still, or as many as the tries gave; then others
    /// until there are enough and one goes round, or the tries are used up.
    pub open spec fn next_phase(self) -> Phase {
        if self.static_tries < STATIC_TRIES && self.static_groups < MIN_STATIC_GROUPS {
            Phase::Static
        } else if self.fill_tries < FILL_TRIES && (self.planets.len() < self.wanted * 4 || !self.has_orbiting) {
            Phase::Fill
        } else {
            Phase::Done
        }
    }

    /// The running try is at a group that stands still.
    pub open spec fn tries_still(self) -> bool {
        self.attempt matches Some(t) && t.still
    }

    /// The running try is at another group.
    pub open spec fn tries_other(self) -> bool {
        self.attempt matches Some(t) && !t.still
    }

    /// The map with the group of the running try at (`x`, `y`).
    pub open spec fn with_group(self, x: Double, y: Double, mx: Double, my: Double, radius: Double) -> MapModel {
        let t = self.attempt->0;
        MapModel {
            planets: self.planets + group(
                self.planets.len() as int,
                x,
                y,
                mx,
                my,
                radius,
                t.ships->0,
                t.production,
            ),
            static_groups: if t.still {
                self.static_groups + 1
            } else {
                self.static_groups
            },
            attempt: None,
            ..self
        }
    }
}

/// A group of four joins a map.
proof fn lemma_with_group(m: MapModel, x: Double, y: Double, mx: Double, my: Double, radius: Double)
    requires
        m.valid(),
        m.attempt matches Some(t) && t.ships is Some,
    ensures
        m.with_group(x, y, mx, my, radius).valid(),
{
    let w = m.with_group(x, y, mx, my, radius);
    let n = m.planets.len() as int;
    assert(w.planets.len() == n + 4);
    assert(w.groups() == m.groups() + 1);
    assert(n % 4 == 0);
    assert forall|i: int| 0 <= i < w.planets.len() implies #[trigger] drawn(w.planets, i) by {
        if i < n {
            assert(drawn(m.planets, i));
        }
    }
    assert forall|i: int| 0 <= i < w.planets.len() implies #[trigger] grouped(w.planets, i) by {
        if i < n {
            assert(grouped(m.planets, i));
        } else {
            assert(i - i % 4 == n);
        }
    }
    assert forall|i: int| 4 * w.static_groups <= i < w.planets.len() implies (#[trigger] w.planets[i]).ships <= 30 by {
        if i < n {
            assert(w.planets[i] == m.planets[i]);
        }
    }
}

/// `w` is the map `m` with four planets more, numbered on, that are nobody's and have
/// the ships and the production of the running try. The point that is given and its
/// mirror image, each with its coordinates swapped, are the first and the last of them;
/// the second lies across the board from left to right, and the third from top to
/// bottom. No try is running then.
pub open spec fn joined(m: MapModel, w: MapModel, x: Double, y: Double, mx: Double, my: Double, radius: Double) -> bool {
    let n = m.planets.len() as int;
    let q = w.planets;
    &&& q.len() == n + 4
    &&& forall|i: int| 0 <= i < n ==> #[trigger] q[i] == m.planets[i]
    &&& forall|i: int|
        n <= i < n + 4 ==> (#[trigger] q[i]).id == i && q[i].owner == -1 && q[i].radius == radius && m.attempt == Some(
            Attempt { still: m.attempt->0.still, production: q[i].production, ships: Some(q[i].ships) },
        )
    &&& q[n].x == y && q[n].y == x
    &&& q[n + 1].x == mx && q[n + 1].y == y
    &&& q[n + 2].x == x && q[n + 2].y == my
    &&& q[n + 3].x == my && q[n + 3].y == mx
    &&& w.attempt is None
    &&& w.wanted == m.wanted && w.rng == m.rng
    &&& w.static_tries == m.static_tries && w.fill_tries == m.fill_tries
}

/// A group joins a map as it should.
pub proof fn lemma_joined(m: MapModel, x: Double, y: Double, mx: Double, my: Double, radius: Double)
    requires
        m.valid(),
        m.attempt matches Some(t) && t.ships is Some,
    ensures
        joined(m, m.with_group(x, y, mx, my, radius), x, y, mx, my, radius),
{
    let w = m.with_group(x, y, mx, my, radius);
    let n = m.planets.len() as int;
    assert(n <= 4 * (STATIC_TRIES + FILL_TRIES));
    assert forall|i: int| n <= i < n + 4 implies (#[trigger] w.planets[i]).id == i && w.planets[i].owner == -1
        && w.planets[i].radius == radius && m.attempt == Some(
        Attempt {
            still: m.attempt->0.still,
            production: w.planets[i].production,
            ships: Some(w.planets[i].ships),
        },
    ) by {
        let k = i - n;
        assert(k == 0 || k == 1 || k == 2 || k == 3);
    }
}

/// A map is done just where neither kind of group is wanted any more or can be tried
/// for: of those that stand still there are enough or the tries are used up; and of all
/// groups there are enough, with one that goes round, or the tries are used up. The
/// first kind goes before the other.
pub proof fn lemma_phases(m: MapModel)
    requires
        m.valid(),
    ensures
        m.next_phase() == Phase::Static <==> m.static_groups < MIN_STATIC_GROUPS && m.static_tries < STATIC_TRIES,
        m.next_phase() == Phase::Done ==> m.static_groups == MIN_STATIC_GROUPS || m.static_tries == STATIC_TRIES,
        m.next_phase() == Phase::Done ==> m.fill_tries == FILL_TRIES || (m.groups() >= m.wanted && m.has_orbiting),
        m.fill_tries < FILL_TRIES && (m.groups() < m.wanted || !m.has_orbiting) ==> m.next_phase() != Phase::Done,
{
}

impl View for MapGen {
    type V = MapModel;

    closed spec fn view(&self) -> MapModel {
        MapModel {
            rng: self.rng,
            wanted: self.wanted,
            planets: self.planets@,
            static_groups: self.static_groups as int,
            static_tries: self.static_tries as int,
            fill_tries: self.fill_tries as int,
            has_orbiting: self.has_orbiting,
            attempt: self.attempt,
        }
    }
}

impl MapGen {
    pub open spec fn valid(self) -> bool {
        self@.valid()
    }

    /// The planets that are on the map.
    pub fn planets(&self) -> (r: &Vec<Planet>)
        ensures
            r@ == self@.planets,
    {
        &self.planets
    }

    /// How many groups there shall be.
    pub fn wanted(&self) -> (n: i64)
        ensures
            n == self@.wanted,
    {
        self.wanted
    }

    pub fn phase(&self) -> (p: Phase)
        requires
            self.valid(),
        ensures
            p == self@.next_phase(),
    {
        if self.static_tries < STATIC_TRIES && self.static_groups < MIN_STATIC_GROUPS {
            Phase::Static
        } else if self.fill_tries < FILL_TRIES && ((self.planets.len() as u64) < (self.wanted * 4) as u64
            || !self.has_orbiting) {
            Phase::Fill
        } else {
            Phase::Done
        }
    }

    /// Starts the map of `seed`: draws the number for the angular velocity, and
    /// then how many groups there shall be. `None` says that the latter gave no
    /// answer.
    pub fn start(seed: u64) -> (r: Option<(MapGen, u64)>)
        ensures
            exists|key: Seq<u32>, begin: PyRandom, mid: PyRandom|
                {
                    &&& #[trigger] crate::pyrandom::is_key_of(key, seed as nat)
                    &&& #[trigger] begin.seeded_with(key)
                    &&& #[trigger] mid.follows(begin, 2)
                    &&& match r {
                        Some((m, u)) => {
                            &&& u == begin.fraction()
                            &&& mid.draws_int(MIN_PLANET_GROUPS, MAX_PLANET_GROUPS, m@.rng, Some(m@.wanted))
                            &&& m.valid()
                            &&& m@ == (MapModel {
                                rng: m@.rng,
                                wanted: m@.wanted,
                                planets: Seq::empty(),
                                static_groups: 0,
                                static_tries: 0,
                                fill_tries: 0,
                                has_orbiting: false,
                                attempt: None,
                            })
                        },
                        None => exists|next: PyRandom| #[trigger] mid.draws_int(
                            MIN_PLANET_GROUPS,
                            MAX_PLANET_GROUPS,
                            next,
                            None,
                        ),
                    }
                },
    {
        let mut rng = PyRandom::from_int(seed);
        let ghost begin = rng;
        let ghost key = choose|key: Seq<u32>| #[trigger]
            crate::pyrandom::is_key_of(key, seed as nat) && begin.seeded_with(key);
        let u: u64 = rng.random();
        let ghost mid = rng;
        assert(mid.follows(begin, 2));
        match rng.randint(MIN_PLANET_GROUPS, MAX_PLANET_GROUPS) {
            Some(wanted) => {
                let m = MapGen {
                    rng,
                    wanted,
                    planets: Vec::new(),
                    static_groups: 0,
                    static_tries: 0,
                    fill_tries: 0,
                    has_orbiting: false,
                    attempt: None,
                };
                assert(m@.planets =~= Seq::<Planet>::empty());
                Some((m, u))
            },
            None => {
                assert(mid.draws_int(MIN_PLANET_GROUPS, MAX_PLANET_GROUPS, rng, None));
                None
            },
        }
    }

    /// Starts a try at a group that stands still: draws what it produces, and
    /// the number for its angle.
    pub fn try_static(&mut self) -> (r: Option<(i64, u64)>)
        requires
            old(self).valid(),
            old(self)@.next_phase() == Phase::Static,
        ensures
            final(self).valid(),
            final(self)@ == (MapModel {
                rng: final(self)@.rng,
                static_tries: old(self)@.static_tries + 1,
                attempt: match r {
                    Some((production, _)) => Some(Attempt { still: true, production, ships: None }),
                    None => None,
                },
                ..old(self)@
            }),
            match r {
                Some((prod, u)) => {
                    &&& 1 <= prod <= 5
                    &&& exists|mid: PyRandom|
                        {
                            &&& #[trigger] old(self)@.rng.draws_int(1, 5, mid, Some(prod))
                            &&& u == mid.fraction()
                            &&& final(self)@.rng.follows(mid, 2)
                        }
                },
                None => old(self)@.rng.draws_int(1, 5, final(self)@.rng, None),
            },
    {
        self.static_tries = self.static_tries + 1;
        match self.rng.randint(1, 5) {
            Some(production) => {
                let ghost mid = self.rng;
                let u: u64 = self.rng.random();
                self.attempt = Some(Attempt { still: true, production, ships: None });
                assert(old(self)@.rng.draws_int(1, 5, mid, Some(production)));
                Some((production, u))
            },
            None => {
                self.attempt = None;
                None
            },
        }
    }

    /// Starts a try at another group: draws what it produces, and the numbers
    /// for its coordinates.
    pub fn try_fill(&mut self) -> (r: Option<(i64, u64, u64)>)
        requires
            old(self).valid(),
            old(self)@.next_phase() == Phase::Fill,
        ensures
            final(self).valid(),
            final(self)@ == (MapModel {
                rng: final(self)@.rng,
                fill_tries: old(self)@.fill_tries + 1,
                attempt: match r {
                    Some((production, _, _)) => Some(Attempt { still: false, production, ships: None }),
                    None => None,
                },
                ..old(self)@
            }),
            match r {
                Some((prod, ux, uy)) => {
                    &&& 1 <= prod <= 5
                    &&& exists|mid: PyRandom, later: PyRandom|
                        {
                            &&& #[trigger] old(self)@.rng.draws_int(1, 5, mid, Some(prod))
                            &&& ux == mid.fraction()
                            &&& #[trigger] later.follows(mid, 2)
                            &&& uy == later.fraction()
                            &&& final(self)@.rng.follows(later, 2)
                        }
                },
                None => old(self)@.rng.draws_int(1, 5, final(self)@.rng, None),
            },
    {
        self.fill_tries = self.fill_tries + 1;
        match self.rng.randint(1, 5) {
            Some(production) => {
                let ghost mid = self.rng;
                let ux: u64 = self.rng.random();
                let ghost later = self.rng;
                let uy: u64 = self.rng.random();
                self.attempt = Some(Attempt { still: false, production, ships: None });
                assert(old(self)@.rng.draws_int(1, 5, mid, Some(production)));
                assert(later.follows(mid, 2));
                Some((production, ux, uy))
            },
            None => {
                self.attempt = None;
                None
            },
        }
    }

    /// Draws the number for the distance of a group that stands still.
    pub fn draw_distance(&mut self) -> (u: u64)
        requires
            old(self).valid(),
        ensures
            final(self).valid(),
            final(self)@ == (MapModel { rng: final(self)@.rng, ..old(self)@ }),
            u == old(self)@.rng.fraction(),
            final(self)@.rng.follows(old(self)@.rng, 2),
    {
        self.rng.random()
    }

    /// Draws the ships of the group that stands still: the smaller of two draws
    /// from 5 to 99.
    pub fn draw_static_ships(&mut self) -> (r: Option<i64>)
        requires
            old(self).valid(),
            old(self)@.tries_still(),
        ensures
            final(self).valid(),
            final(self)@ == (MapModel {
                rng: final(self)@.rng,
                attempt: Some(Attempt { ships: r, ..old(self)@.attempt->0 }),
                ..old(self)@
            }),
            match r {
                Some(ships) => 5 <= ships <= 99 && exists|mid: PyRandom, a: i64, b: i64|
                    {
                        &&& #[trigger] old(self)@.rng.draws_int(5, 99, mid, Some(a))
                        &&& #[trigger] mid.draws_int(5, 99, final(self)@.rng, Some(b))
                        &&& ships == (if a < b {
                            a
                        } else {
                            b
                        })
                    },
                None => old(self)@.rng.draws_int(5, 99, final(self)@.rng, None) || exists|mid: PyRandom, a: i64|
                    {
                        &&& #[trigger] old(self)@.rng.draws_int(5, 99, mid, Some(a))
                        &&& mid.draws_int(5, 99, final(self)@.rng, None)
                    },
            },
    {
        let r: Option<i64> = match self.rng.randint(5, 99) {
            Some(a) => {
                let ghost mid = self.rng;
                assert(old(self)@.rng.draws_int(5, 99, mid, Some(a)));
                match self.rng.randint(5, 99) {
                    Some(b) => {
                        assert(mid.draws_int(5, 99, self.rng, Some(b)));
                        Some(
                            if a < b {
                                a
                            } else {
                                b
                            },
                        )
                    },
                    None => None,
                }
            },
            None => None,
        };
        self.keep_ships(r);
        r
    }

    /// Draws the ships of the other group: from 5 to 30.
    pub fn draw_fill_ships(&mut self) -> (r: Option<i64>)
        requires
            old(self).valid(),
            old(self)@.tries_other(),
        ensures
            final(self).valid(),
            final(self)@ == (MapModel {
                rng: final(self)@.rng,
                attempt: Some(Attempt { ships: r, ..old(self)@.attempt->0 }),
                ..old(self)@
            }),
            old(self)@.rng.draws_int(5, 30, final(self)@.rng, r),
            r matches Some(ships) ==> 5 <= ships <= 30,
    {
        let r: Option<i64> = self.rng.randint(5, 30);
        self.keep_ships(r);
        r
    }

    fn keep_ships(&mut self, ships: Option<i64>)
        requires
            old(self)@.attempt is Some,
        ensures
            final(self)@ == (MapModel { attempt: Some(Attempt { ships, ..old(self)@.attempt->0 }), ..old(self)@ }),
    {
        if let Some(t) = self.attempt {
            self.attempt = Some(Attempt { ships, ..t });
        }
    }

    fn push_group(&mut self, x: Double, y: Double, mx: Double, my: Double, radius: Double, ships: i64, production: i64)
        requires
            old(self).planets@.len() <= 50000,
        ensures
            final(self)@ == (MapModel {
                planets: old(self)@.planets + group(
                    old(self)@.planets.len() as int,
                    x,
                    y,
                    mx,
                    my,
                    radius,
                    ships,
                    production,
                ),
                ..old(self)@
            }),
    {
        let id0: i64 = self.planets.len() as i64;
        let ghost before = self.planets@;
        self.planets.push(Planet { id: id0, owner: NEUTRAL, x: y, y: x, radius, ships, production });
        self.planets.push(Planet { id: id0 + 1, owner: NEUTRAL, x: mx, y, radius, ships, production });
        self.planets.push(Planet { id: id0 + 2, owner: NEUTRAL, x, y: my, radius, ships, production });
        self.planets.push(Planet { id: id0 + 3, owner: NEUTRAL, x: my, y: mx, radius, ships, production });
        assert(self.planets@ =~= before + group(before.len() as int, x, y, mx, my, radius, ships, production));
    }

    /// Adds the group of the running try, which stands still at (`x`, `y`), with
    /// what was drawn for it.
    pub fn add_static(&mut self, x: Double, y: Double, mx: Double, my: Double, radius: Double)
        requires
            old(self).valid(),
            old(self)@.tries_still(),
            old(self)@.attempt->0.ships is Some,
        ensures
            final(self).valid(),
            final(self)@ == old(self)@.with_group(x, y, mx, my, radius),
            joined(old(self)@, final(self)@, x, y, mx, my, radius),
            final(self)@.static_groups == old(self)@.static_groups + 1,
            final(self)@.has_orbiting == old(self)@.has_orbiting,
    {
        proof {
            lemma_with_group(self@, x, y, mx, my, radius);
            lemma_joined(self@, x, y, mx, my, radius);
        }
        if let Some(t) = self.attempt {
            if let Some(ships) = t.ships {
                self.push_group(x, y, mx, my, radius, ships, t.production);
            }
        }
        self.static_groups = self.static_groups + 1;
        self.attempt = None;
    }

    /// Adds the group of the running try at (`x`, `y`), with what was drawn for it;
    /// `orbiting` says whether it goes round.
    pub fn add_fill(&mut self, x: Double, y: Double, mx: Double, my: Double, radius: Double, orbiting: bool)
        requires
            old(self).valid(),
            old(self)@.tries_other(),
            old(self)@.attempt->0.ships is Some,
        ensures
            final(self).valid(),
            final(self)@ == (MapModel {
                has_orbiting: old(self)@.has_orbiting || orbiting,
                ..old(self)@.with_group(x, y, mx, my, radius)
            }),
            joined(old(self)@, final(self)@, x, y, mx, my, radius),
            final(self)@.static_groups == old(self)@.static_groups,
    {
        proof {
            lemma_with_group(self@, x, y, mx, my, radius);
            lemma_joined(self@, x, y, mx, my, radius);
        }
        if let Some(t) = self.attempt {
            if let Some(ships) = t.ships {
                self.push_group(x, y, mx, my, radius, ships, t.production);
            }
        }
        if orbiting {
            self.has_orbiting = true;
        }
        self.attempt = None;
    }
}

/// The planet as the home of `player`.
pub open spec fn home(p: Planet, player: i64) -> Planet {
    Planet { owner: player, ships: HOME_SHIPS, ..p }
}

/// The planets with the homes of `num_agents` players in the group at `base`:
/// two players start on its first and its last planet, four on one each; with
/// any other number of players nobody starts anywhere.
pub open spec fn with_homes(planets: Seq<Planet>, base: int, num_agents: nat) -> Seq<Planet> {
    if num_agents == 2 {
        planets.update(base, home(planets[base], 0)).update(base + 3, home(planets[base + 3], 1))
    } else if num_agents == 4 {
        planets.update(base, home(planets[base], 0)).update(base + 1, home(planets[base + 1], 1)).update(
            base + 2,
            home(planets[base + 2], 2),
        ).update(base + 3, home(planets[base + 3], 3))
    } else {
        planets
    }
}

/// The game that starts on the map `initial`.
pub open spec fn new_game(
    initial: Seq<Planet>,
    planets: Seq<Planet>,
    angular_velocity: Double,
) -> crate::state::GameModel {
    crate::state::GameModel {
        planets,
        fleets: Seq::empty(),
        next_fleet_id: 0,
        comets: Seq::empty(),
        comet_planet_ids: Seq::empty(),
        initial_planets: initial,
        angular_velocity,
    }
}

fn set_home(planets: &mut Vec<Planet>, i: usize, player: i64)
    requires
        i < old(planets)@.len(),
    ensures
        final(planets)@ == old(planets)@.update(i as int, home(old(planets)@[i as int], player)),
{
    let p = planets[i];
    planets[i] = Planet { owner: player, ships: HOME_SHIPS, ..p };
}

/// Gives the players their homes in the group at `base`.
pub fn assign_homes(planets: &mut Vec<Planet>, base: usize, num_agents: usize)
    requires
        base + 3 < old(planets)@.len(),
    ensures
        final(planets)@ == with_homes(old(planets)@, base as int, num_agents as nat),
        num_agents == 2 ==> final(planets)@[base as int].owner == 0 && final(planets)@[base + 3].owner == 1,
        num_agents == 4 ==> forall|p: int| 0 <= p < 4 ==> (#[trigger] final(planets)@[base + p]).owner == p,
{
    let n: usize = planets.len();
    assert(base + 3 < n);
    if num_agents == 2 {
        set_home(planets, base, 0);
        set_home(planets, base + 3, 1);
    } else if num_agents == 4 {
        set_home(planets, base, 0);
        set_home(planets, base + 1, 1);
        set_home(planets, base + 2, 2);
        set_home(planets, base + 3, 3);
    }
}

/// Starts the game on a finished map: draws the group in which the players have
/// their homes, where there is one. `None` says that the draw gave no answer.
pub fn start_game(m: MapGen, num_agents: usize, angular_velocity: Double) -> (r: Option<GameState>)
    requires
        m.valid(),
    ensures
        match r {
            Some(g) => {
                &&& g@.valid()
                &&& if m@.groups() == 0 {
                    g@ == new_game(m@.planets, m@.planets, angular_velocity)
                } else {
                    exists|next: PyRandom, at: i64|
                        {
                            &&& #[trigger] m@.rng.draws_int(0, (m@.groups() - 1) as i64, next, Some(at))
                            &&& 0 <= at < m@.groups()
                            &&& g@ == new_game(
                                m@.planets,
                                with_homes(m@.planets, at * 4, num_agents as nat),
                                angular_velocity,
                            )
                        }
                }
            },
            None => m@.groups() > 0 && exists|next: PyRandom| #[trigger]
                m@.rng.draws_int(0, (m@.groups() - 1) as i64, next, None),
        },
{
    let ghost first = m@;
    let ghost all = m@.planets;
    let mut m = m;
    let mut initial: Vec<Planet> = Vec::new();
    initial.extend_from_slice(m.planets.as_slice());
    assert(initial@ =~= all);
    let groups: usize = m.planets.len() / 4;
    let mut planets = m.planets;
    if groups > 0 {
        let top: i64 = groups as i64 - 1;
        match m.rng.randint(0, top) {
            Some(at) => {
                assert(first.rng.draws_int(0, top, m.rng, Some(at)));
                assign_homes(&mut planets, at as usize * 4, num_agents);
            },
            None => {
                assert(first.rng.draws_int(0, top, m.rng, None));
                return None;
            },
        }
    }
    let g = GameState {
        planets,
        fleets: Vec::new(),
        next_fleet_id: 0,
        comets: Vec::new(),
        comet_planet_ids: Vec::new(),
        initial_planets: initial,
        angular_velocity,
    };
    assert(g@ =~= new_game(all, planets@, angular_velocity));
    assert forall|i: int| 0 <= i < all.len() implies (#[trigger] planets@[i]).id == all[i].id && planets@[i].ships >= 0
        && planets@[i].production >= 0 by {
        assert(drawn(all, i));
    }
    Some(g)
}

/// The four planets of each group are alike, and lie in symmetry.
pub proof fn lemma_groups_alike(m: MapModel, n: int)
    requires
        m.valid(),
        0 <= n < m.groups(),
    ensures
        ({
            let q = m.planets.subrange(4 * n, 4 * n + 4);
            q == group(
                4 * n,
                q[0].y,
                q[0].x,
                q[1].x,
                q[2].y,
                q[0].radius,
                q[0].ships,
                q[0].production,
            )
        }),
{
    let q = m.planets.subrange(4 * n, 4 * n + 4);
    assert forall|k: int| 0 <= k < 4 implies (#[trigger] q[k]) == m.planets[4 * n + k] && drawn(m.planets, 4 * n + k)
        && grouped(m.planets, 4 * n + k) && (4 * n + k) % 4 == k by {}
    let (a, b, c, d) = (q[0], q[1], q[2], q[3]);
    assert(q =~= group(4 * n, a.y, a.x, b.x, c.y, a.radius, a.ships, a.production));
}

/// A new game is in good order.
pub proof fn lemma_new_game(m: MapGen, at: int, num_agents: nat, angular_velocity: Double)
    requires
        m.valid(),
        0 <= at < m@.groups(),
    ensures
        ({
            let g = new_game(m@.planets, with_homes(m@.planets, at * 4, num_agents), angular_velocity);
            crate::game::orderly(g)
        }),
{
    let g = new_game(m@.planets, with_homes(m@.planets, at * 4, num_agents), angular_velocity);
    assert forall|i: int| 0 <= i < g.planets.len() implies (#[trigger] g.planets[i]).id == i && g.planets[i].ships >= 0
        && g.planets[i].production >= 0 by {
        assert(drawn(m@.planets, i));
    }
    assert forall|i: int| 0 <= i < g.planets.len() implies (#[trigger] g.planets[i]).id == g.initial_planets[i].id by {
        assert(drawn(m@.planets, i));
    }
}

/// Each of two or four players has one home. Four start on the planets of the group in
/// their order; two start on the first and the last, which lie across the board from
/// each other. Where there are more or fewer players, nobody has one.
pub proof fn lemma_home_of(planets: Seq<Planet>, base: int, num_agents: nat, p: int, i: int)
    requires
        0 <= base,
        base + 3 < planets.len(),
        0 <= i < planets.len(),
        forall|k: int| 0 <= k < planets.len() ==> (#[trigger] planets[k]).owner == NEUTRAL,
    ensures
        ({
            let w = with_homes(planets, base, num_agents);
            &&& num_agents == 4 && 0 <= p < 4 ==> (w[i].owner == p <==> i == base + p)
            &&& num_agents == 2 ==> (w[i].owner == 0 <==> i == base) && (w[i].owner == 1 <==> i == base + 3)
            &&& num_agents != 2 && num_agents != 4 ==> w == planets
            &&& w[i].owner == NEUTRAL || 0 <= w[i].owner < num_agents
            &&& w[i].id == planets[i].id && w[i].x == planets[i].x && w[i].y == planets[i].y && w[i].radius
                == planets[i].radius && w[i].production == planets[i].production
        }),
{
    assert(planets[i].owner == NEUTRAL);
}

/// Every home has the same number of ships and lies in the chosen group; all
/// other planets stay as they are.
pub proof fn lemma_homes(planets: Seq<Planet>, base: int, num_agents: nat, i: int)
    requires
        0 <= base,
        base + 3 < planets.len(),
        0 <= i < planets.len(),
        forall|k: int| 0 <= k < planets.len() ==> (#[trigger] planets[k]).owner == NEUTRAL,
    ensures
        with_homes(planets, base, num_agents).len() == planets.len(),
        with_homes(planets, base, num_agents)[i].owner != NEUTRAL ==> with_homes(
            planets,
            base,
            num_agents,
        )[i].ships == HOME_SHIPS && base <= i <= base + 3,
        with_homes(planets, base, num_agents)[i].owner == NEUTRAL ==> with_homes(planets, base, num_agents)[i]
            == planets[i],
{
    assert(planets[i].owner == NEUTRAL);
}

} // verus!
