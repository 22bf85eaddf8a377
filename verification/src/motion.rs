//! Where planets and comets go in a tick.

use crate::double::{Double, Point};
use crate::state::{find_planet, has_id, GameState, Planet};
use vstd::prelude::*;

verus! {

use crate::state::{GameModel, GroupModel};

/// The way of a planet over a tick, and whether fleets can hit it on the way.
#[derive(Clone, Copy, PartialEq, Eq, Structural, Debug)]
pub struct PlanetPath {
    pub from: Point,
    pub to: Point,
    pub check: bool,
}

/// The ways of all planets over a tick, and the comets that leave the board.
pub struct PlanetMotion {
    pub paths: Vec<PlanetPath>,
    pub expired: Vec<i64>,
}

#[verifier::ext_equal]
pub struct MotionModel {
    pub paths: Seq<PlanetPath>,
    pub expired: Seq<i64>,
}

impl View for PlanetMotion {
    type V = MotionModel;

    open spec fn view(&self) -> MotionModel {
        MotionModel { paths: self.paths@, expired: self.expired@ }
    }
}

/// Where the planet is.
pub open spec fn place(p: Planet) -> Point {
    Point { x: p.x, y: p.y }
}

/// The ways before the comets have moved: planets go to `drift`, comets stay.
pub open spec fn drifting(planets: Seq<Planet>, comet_ids: Seq<i64>, drift: Seq<Point>) -> MotionModel {
    MotionModel {
        paths: Seq::new(
            planets.len(),
            |i: int|
                PlanetPath {
                    from: place(planets[i]),
                    to: if comet_ids.contains(planets[i].id) {
                        place(planets[i])
                    } else {
                        drift[i]
                    },
                    check: true,
                },
        ),
        expired: Seq::empty(),
    }
}

/// The ways once comet `pid` has moved to place `idx` of its path. Past the end
/// of the path it stays and leaves the game; coming from off the board it
/// cannot be hit.
pub open spec fn with_comet(planets: Seq<Planet>, m: MotionModel, pid: i64, path: Seq<Point>, idx: int) -> MotionModel {
    match crate::state::planet_index(planets, pid) {
        Some(j) => {
            let from = m.paths[j].from;
            if idx >= path.len() {
                MotionModel {
                    paths: m.paths.update(j, PlanetPath { from, to: from, check: true }),
                    expired: m.expired.push(pid),
                }
            } else {
                MotionModel {
                    paths: m.paths.update(
                        j,
                        PlanetPath { from, to: path[idx], check: (Double { bits: 0 }).at_most(from.x) },
                    ),
                    ..m
                }
            }
        },
        None => m,
    }
}

/// The ways once the first `n` comets of the group have moved.
pub open spec fn with_group(planets: Seq<Planet>, m: MotionModel, g: GroupModel, n: nat) -> MotionModel
    decreases n,
{
    if n == 0 {
        m
    } else {
        with_comet(
            planets,
            with_group(planets, m, g, (n - 1) as nat),
            g.planet_ids[n - 1],
            g.paths[n - 1],
            g.path_index,
        )
    }
}

/// The ways once the comets of all groups have moved.
pub open spec fn with_groups(planets: Seq<Planet>, m: MotionModel, comets: Seq<GroupModel>) -> MotionModel
    decreases comets.len(),
{
    if comets.len() == 0 {
        m
    } else {
        with_group(
            planets,
            with_groups(planets, m, comets.drop_last()),
            comets.last(),
            comets.last().planet_ids.len(),
        )
    }
}

/// The groups, each one place further along.
pub open spec fn stepped(comets: Seq<GroupModel>) -> Seq<GroupModel> {
    Seq::new(comets.len(), |i: int| GroupModel { path_index: comets[i].path_index + 1, ..comets[i] })
}

/// The game with its comets one place further along.
pub open spec fn comets_stepped(g: GameModel) -> GameModel {
    GameModel { comets: stepped(g.comets), ..g }
}

/// The ways of the planets in the tick of `g`.
pub open spec fn planned(g: GameModel, drift: Seq<Point>) -> MotionModel {
    with_groups(g.planets, drifting(g.planets, g.comet_planet_ids, drift), stepped(g.comets))
}

/// Every planet keeps its place in the list of ways, and starts where it is.
pub open spec fn starts_right(planets: Seq<Planet>, m: MotionModel) -> bool {
    &&& m.paths.len() == planets.len()
    &&& forall|i: int| 0 <= i < planets.len() ==> (#[trigger] m.paths[i]).from == place(planets[i])
}

proof fn lemma_with_comet(planets: Seq<Planet>, m: MotionModel, pid: i64, path: Seq<Point>, idx: int)
    requires
        starts_right(planets, m),
    ensures
        starts_right(planets, with_comet(planets, m, pid, path, idx)),
{
    crate::state::lemma_planet_index(planets, pid);
    let w = with_comet(planets, m, pid, path, idx);
    assert forall|i: int| 0 <= i < planets.len() implies (#[trigger] w.paths[i]).from == place(planets[i]) by {
        assert(m.paths[i].from == place(planets[i]));
    }
}

proof fn lemma_with_group(planets: Seq<Planet>, m: MotionModel, g: GroupModel, n: nat)
    requires
        starts_right(planets, m),
    ensures
        starts_right(planets, with_group(planets, m, g, n)),
    decreases n,
{
    if n > 0 {
        lemma_with_group(planets, m, g, (n - 1) as nat);
        lemma_with_comet(
            planets,
            with_group(planets, m, g, (n - 1) as nat),
            g.planet_ids[n - 1],
            g.paths[n - 1],
            g.path_index,
        );
    }
}

proof fn lemma_with_groups(planets: Seq<Planet>, m: MotionModel, comets: Seq<GroupModel>)
    requires
        starts_right(planets, m),
    ensures
        starts_right(planets, with_groups(planets, m, comets)),
    decreases comets.len(),
{
    if comets.len() > 0 {
        lemma_with_groups(planets, m, comets.drop_last());
        lemma_with_group(
            planets,
            with_groups(planets, m, comets.drop_last()),
            comets.last(),
            comets.last().planet_ids.len(),
        );
    }
}

/// In every tick each planet has one way, which starts where the planet is.
pub proof fn lemma_planned(g: GameModel, drift: Seq<Point>)
    ensures
        starts_right(g.planets, planned(g, drift)),
{
    lemma_with_groups(g.planets, drifting(g.planets, g.comet_planet_ids, drift), stepped(g.comets));
}

proof fn lemma_group_passes(planets: Seq<Planet>, m: MotionModel, g: GroupModel, n: nat, i: int)
    requires
        starts_right(planets, m),
        n <= g.planet_ids.len(),
        0 <= i < planets.len(),
        forall|b: int| 0 <= b < n ==> #[trigger] g.planet_ids[b] != planets[i].id,
    ensures
        with_group(planets, m, g, n).paths[i] == m.paths[i],
    decreases n,
{
    if n > 0 {
        lemma_group_passes(planets, m, g, (n - 1) as nat, i);
        lemma_with_group(planets, m, g, (n - 1) as nat);
        crate::state::lemma_planet_index(planets, g.planet_ids[n - 1]);
        assert(g.planet_ids[n - 1] != planets[i].id);
    }
}

proof fn lemma_groups_pass(planets: Seq<Planet>, m: MotionModel, comets: Seq<GroupModel>, i: int)
    requires
        starts_right(planets, m),
        0 <= i < planets.len(),
        forall|a: int, b: int|
            0 <= a < comets.len() && 0 <= b < comets[a].planet_ids.len() ==> #[trigger] comets[a].planet_ids[b]
                != planets[i].id,
    ensures
        with_groups(planets, m, comets).paths[i] == m.paths[i],
    decreases comets.len(),
{
    if comets.len() > 0 {
        let front = comets.drop_last();
        let last = comets.len() - 1;
        assert forall|a: int, b: int| 0 <= a < front.len() && 0 <= b < front[a].planet_ids.len() implies #[trigger] front[a].planet_ids[b]
            != planets[i].id by {
            assert(comets[a].planet_ids[b] != planets[i].id);
        }
        lemma_groups_pass(planets, m, front, i);
        lemma_with_groups(planets, m, front);
        assert forall|b: int| 0 <= b < comets[last].planet_ids.len() implies #[trigger] comets[last].planet_ids[b]
            != planets[i].id by {}
        lemma_group_passes(
            planets,
            with_groups(planets, m, front),
            comets[last],
            comets[last].planet_ids.len(),
            i,
        );
    }
}

/// A planet that no group has goes where it drifts, and stays where it is listed as a
/// comet; either way fleets can hit it.
pub proof fn lemma_way_of_planet(g: GameModel, drift: Seq<Point>, i: int)
    requires
        0 <= i < g.planets.len(),
        forall|a: int, b: int|
            0 <= a < g.comets.len() && 0 <= b < g.comets[a].planet_ids.len() ==> #[trigger] g.comets[a].planet_ids[b]
                != g.planets[i].id,
    ensures
        ({
            let w = planned(g, drift).paths[i];
            &&& w.from.x == g.planets[i].x && w.from.y == g.planets[i].y
            &&& !g.comet_planet_ids.contains(g.planets[i].id) ==> w.to == drift[i]
            &&& g.comet_planet_ids.contains(g.planets[i].id) ==> w.to == w.from
            &&& w.check
        }),
{
    let comets = stepped(g.comets);
    let m = drifting(g.planets, g.comet_planet_ids, drift);
    assert forall|a: int, b: int| 0 <= a < comets.len() && 0 <= b < comets[a].planet_ids.len() implies #[trigger] comets[a].planet_ids[b]
        != g.planets[i].id by {
        assert(g.comets[a].planet_ids[b] != g.planets[i].id);
    }
    lemma_groups_pass(g.planets, m, comets, i);
}

proof fn lemma_group_moves(planets: Seq<Planet>, m: MotionModel, g: GroupModel, n: nat, i: int, k: int)
    requires
        starts_right(planets, m),
        crate::game::distinct(planets),
        n <= g.planet_ids.len(),
        0 <= i < planets.len(),
        0 <= k < n,
        g.planet_ids[k] == planets[i].id,
        forall|b: int| 0 <= b < n && b != k ==> #[trigger] g.planet_ids[b] != planets[i].id,
    ensures
        with_group(planets, m, g, n).paths[i] == (if g.path_index >= g.paths[k].len() {
            PlanetPath { from: m.paths[i].from, to: m.paths[i].from, check: true }
        } else {
            PlanetPath {
                from: m.paths[i].from,
                to: g.paths[k][g.path_index],
                check: (Double { bits: 0 }).at_most(m.paths[i].from.x),
            }
        }),
    decreases n,
{
    let v = with_group(planets, m, g, (n - 1) as nat);
    lemma_with_group(planets, m, g, (n - 1) as nat);
    crate::state::lemma_planet_index(planets, g.planet_ids[n - 1]);
    if k == n - 1 {
        lemma_group_passes(planets, m, g, (n - 1) as nat, i);
        let j = crate::state::planet_index(planets, g.planet_ids[n - 1])->0;
        assert(j == i) by {
            if j < i {
                assert(planets[j].id != planets[i].id);
            } else if i < j {
                assert(planets[i].id != planets[j].id);
            }
        }
    } else {
        lemma_group_moves(planets, m, g, (n - 1) as nat, i, k);
        assert(g.planet_ids[n - 1] != planets[i].id);
    }
}

proof fn lemma_groups_move(planets: Seq<Planet>, m: MotionModel, comets: Seq<GroupModel>, i: int, c: int, k: int)
    requires
        starts_right(planets, m),
        crate::game::distinct(planets),
        0 <= i < planets.len(),
        0 <= c < comets.len(),
        0 <= k < comets[c].planet_ids.len(),
        comets[c].planet_ids[k] == planets[i].id,
        forall|a: int, b: int|
            0 <= a < comets.len() && 0 <= b < comets[a].planet_ids.len() && #[trigger] comets[a].planet_ids[b]
                == planets[i].id ==> a == c && b == k,
    ensures
        with_groups(planets, m, comets).paths[i] == (if comets[c].path_index >= comets[c].paths[k].len() {
            PlanetPath { from: m.paths[i].from, to: m.paths[i].from, check: true }
        } else {
            PlanetPath {
                from: m.paths[i].from,
                to: comets[c].paths[k][comets[c].path_index],
                check: (Double { bits: 0 }).at_most(m.paths[i].from.x),
            }
        }),
    decreases comets.len(),
{
    let front = comets.drop_last();
    let last = comets.len() - 1;
    let v = with_groups(planets, m, front);
    lemma_with_groups(planets, m, front);
    if c == last {
        assert forall|a: int, b: int| 0 <= a < front.len() && 0 <= b < front[a].planet_ids.len() implies #[trigger] front[a].planet_ids[b]
            != planets[i].id by {
            if comets[a].planet_ids[b] == planets[i].id {
                assert(a == c);
            }
        }
        lemma_groups_pass(planets, m, front, i);
        assert forall|b: int| 0 <= b < comets[last].planet_ids.len() && b != k implies #[trigger] comets[last].planet_ids[b]
            != planets[i].id by {}
        lemma_group_moves(planets, v, comets[last], comets[last].planet_ids.len(), i, k);
    } else {
        assert forall|a: int, b: int|
            0 <= a < front.len() && 0 <= b < front[a].planet_ids.len() && #[trigger] front[a].planet_ids[b]
                == planets[i].id implies a == c && b == k by {
            assert(comets[a].planet_ids[b] == planets[i].id);
        }
        lemma_groups_move(planets, m, front, i, c, k);
        assert forall|b: int| 0 <= b < comets[last].planet_ids.len() implies #[trigger] comets[last].planet_ids[b]
            != planets[i].id by {
            if comets[last].planet_ids[b] == planets[i].id {
                assert(last == c);
            }
        }
        lemma_group_passes(planets, v, comets[last], comets[last].planet_ids.len(), i);
    }
}

/// A comet goes on to the next point of its path. Fleets can hit it there, unless it
/// comes from off the board. Where its path has no next point, it stays.
pub proof fn lemma_way_of_comet(g: GameModel, drift: Seq<Point>, i: int, c: int, k: int)
    requires
        crate::game::distinct(g.planets),
        0 <= i < g.planets.len(),
        0 <= c < g.comets.len(),
        0 <= k < g.comets[c].planet_ids.len(),
        g.comets[c].planet_ids[k] == g.planets[i].id,
        forall|a: int, b: int|
            0 <= a < g.comets.len() && 0 <= b < g.comets[a].planet_ids.len() && #[trigger] g.comets[a].planet_ids[b]
                == g.planets[i].id ==> a == c && b == k,
    ensures
        ({
            let w = planned(g, drift).paths[i];
            let path = g.comets[c].paths[k];
            let next = g.comets[c].path_index + 1;
            &&& w.from.x == g.planets[i].x && w.from.y == g.planets[i].y
            &&& next < path.len() ==> w.to == path[next] && (w.check <==> (Double { bits: 0 }).at_most(g.planets[i].x))
            &&& next >= path.len() ==> w.to == w.from && w.check
        }),
{
    let comets = stepped(g.comets);
    let m = drifting(g.planets, g.comet_planet_ids, drift);
    assert(comets[c].planet_ids[k] == g.planets[i].id);
    assert forall|a: int, b: int|
        0 <= a < comets.len() && 0 <= b < comets[a].planet_ids.len() && #[trigger] comets[a].planet_ids[b]
            == g.planets[i].id implies a == c && b == k by {
        assert(g.comets[a].planet_ids[b] == g.planets[i].id);
    }
    lemma_groups_move(g.planets, m, comets, i, c, k);
}

/// The comet with the id is a planet of the game, and its path has no next point.
pub open spec fn runs_out(planets: Seq<Planet>, comets: Seq<GroupModel>, id: i64) -> bool {
    &&& exists|i: int| 0 <= i < planets.len() && (#[trigger] planets[i]).id == id
    &&& exists|a: int, b: int|
        0 <= a < comets.len() && 0 <= b < comets[a].planet_ids.len() && #[trigger] comets[a].planet_ids[b] == id
            && comets[a].path_index + 1 >= comets[a].paths[b].len()
}

proof fn lemma_group_expires(planets: Seq<Planet>, m: MotionModel, g: GroupModel, n: nat, id: i64)
    requires
        n <= g.planet_ids.len(),
    ensures
        with_group(planets, m, g, n).expired.contains(id) <==> m.expired.contains(id) || ((exists|i: int|
            0 <= i < planets.len() && (#[trigger] planets[i]).id == id) && exists|b: int|
            0 <= b < n && #[trigger] g.planet_ids[b] == id && g.path_index >= g.paths[b].len()),
    decreases n,
{
    if n > 0 {
        lemma_group_expires(planets, m, g, (n - 1) as nat, id);
        let v = with_group(planets, m, g, (n - 1) as nat);
        let w = with_group(planets, m, g, n);
        crate::state::lemma_planet_index(planets, g.planet_ids[n - 1]);
        let at = crate::state::planet_index(planets, g.planet_ids[n - 1]);
        if at is Some && g.path_index >= g.paths[n - 1].len() {
            assert(w.expired == v.expired.push(g.planet_ids[n - 1]));
            assert(planets[at->0].id == g.planet_ids[n - 1]);
            if v.expired.contains(id) {
                let j = choose|j: int| 0 <= j < v.expired.len() && v.expired[j] == id;
                assert(w.expired[j] == id);
            }
            if g.planet_ids[n - 1] == id {
                assert(w.expired[v.expired.len() as int] == id);
            }
            if w.expired.contains(id) {
                let j = choose|j: int| 0 <= j < w.expired.len() && w.expired[j] == id;
                if j < v.expired.len() {
                    assert(v.expired[j] == id);
                }
            }
        } else {
            assert(w.expired == v.expired);
        }
    }
}

proof fn lemma_groups_expire(planets: Seq<Planet>, m: MotionModel, comets: Seq<GroupModel>, id: i64)
    ensures
        with_groups(planets, m, comets).expired.contains(id) <==> m.expired.contains(id) || ((exists|i: int|
            0 <= i < planets.len() && (#[trigger] planets[i]).id == id) && exists|a: int, b: int|
            0 <= a < comets.len() && 0 <= b < comets[a].planet_ids.len() && #[trigger] comets[a].planet_ids[b] == id
                && comets[a].path_index >= comets[a].paths[b].len()),
    decreases comets.len(),
{
    if comets.len() > 0 {
        let front = comets.drop_last();
        let last = comets.len() - 1;
        let v = with_groups(planets, m, front);
        lemma_groups_expire(planets, m, front, id);
        lemma_group_expires(planets, v, comets[last], comets[last].planet_ids.len(), id);
        if exists|a: int, b: int|
            0 <= a < comets.len() && 0 <= b < comets[a].planet_ids.len() && #[trigger] comets[a].planet_ids[b] == id
                && comets[a].path_index >= comets[a].paths[b].len() {
            let (a, b) = choose|a: int, b: int|
                0 <= a < comets.len() && 0 <= b < comets[a].planet_ids.len() && #[trigger] comets[a].planet_ids[b] == id
                    && comets[a].path_index >= comets[a].paths[b].len();
            if a < last {
                assert(front[a].planet_ids[b] == id);
            } else {
                assert(comets[last].planet_ids[b] == id);
            }
        }
        if exists|a: int, b: int|
            0 <= a < front.len() && 0 <= b < front[a].planet_ids.len() && #[trigger] front[a].planet_ids[b] == id
                && front[a].path_index >= front[a].paths[b].len() {
            let (a, b) = choose|a: int, b: int|
                0 <= a < front.len() && 0 <= b < front[a].planet_ids.len() && #[trigger] front[a].planet_ids[b] == id
                    && front[a].path_index >= front[a].paths[b].len();
            assert(comets[a].planet_ids[b] == id);
        }
        if exists|b: int|
            0 <= b < comets[last].planet_ids.len() && #[trigger] comets[last].planet_ids[b] == id
                && comets[last].path_index >= comets[last].paths[b].len() {
            let b = choose|b: int|
                0 <= b < comets[last].planet_ids.len() && #[trigger] comets[last].planet_ids[b] == id
                    && comets[last].path_index >= comets[last].paths[b].len();
            assert(comets[last].planet_ids[b] == id);
        }
    }
}

/// The comets that leave in a tick are those whose paths have no next point.
pub proof fn lemma_leaving(g: GameModel, drift: Seq<Point>, id: i64)
    ensures
        planned(g, drift).expired.contains(id) <==> runs_out(g.planets, g.comets, id),
{
    let comets = stepped(g.comets);
    lemma_groups_expire(g.planets, drifting(g.planets, g.comet_planet_ids, drift), comets, id);
    if runs_out(g.planets, g.comets, id) {
        let (a, b) = choose|a: int, b: int|
            0 <= a < g.comets.len() && 0 <= b < g.comets[a].planet_ids.len() && #[trigger] g.comets[a].planet_ids[b] == id
                && g.comets[a].path_index + 1 >= g.comets[a].paths[b].len();
        assert(comets[a].planet_ids[b] == id);
    }
    if planned(g, drift).expired.contains(id) {
        let (a, b) = choose|a: int, b: int|
            0 <= a < comets.len() && 0 <= b < comets[a].planet_ids.len() && #[trigger] comets[a].planet_ids[b] == id
                && comets[a].path_index >= comets[a].paths[b].len();
        assert(g.comets[a].planet_ids[b] == id);
    }
}

/// Every group goes on by one place in a tick, and nothing else about it changes.
pub proof fn lemma_stepped(g: GameModel, c: int)
    requires
        0 <= c < g.comets.len(),
    ensures
        comets_stepped(g).comets.len() == g.comets.len(),
        comets_stepped(g).comets[c].path_index == g.comets[c].path_index + 1,
        comets_stepped(g).comets[c].planet_ids == g.comets[c].planet_ids,
        comets_stepped(g).comets[c].paths == g.comets[c].paths,
        comets_stepped(g).planets == g.planets,
        comets_stepped(g).fleets == g.fleets,
        comets_stepped(g).initial_planets == g.initial_planets,
        comets_stepped(g).comet_planet_ids == g.comet_planet_ids,
        comets_stepped(g).next_fleet_id == g.next_fleet_id,
        comets_stepped(g).angular_velocity == g.angular_velocity,
{
}

/// Moves the comets one place along their paths and gives the ways of all
/// planets. `drift[i]` is where planet `i` is at the end of the tick, if it is
/// no comet.
pub fn plan_planets(g: &mut GameState, drift: &Vec<Point>) -> (m: PlanetMotion)
    requires
        old(g)@.valid(),
        drift@.len() == old(g)@.planets.len(),
        forall|i: int| 0 <= i < old(g)@.comets.len() ==> (#[trigger] old(g)@.comets[i]).path_index < i64::MAX,
    ensures
        final(g)@ == comets_stepped(old(g)@),
        final(g)@.valid(),
        m@ == planned(old(g)@, drift@),
{
    let ghost start = g@;
    let ghost base = drifting(start.planets, start.comet_planet_ids, drift@);
    let ghost moved = stepped(start.comets);
    let mut paths: Vec<PlanetPath> = Vec::new();
    let mut i: usize = 0;
    while i < g.planets.len()
        invariant
            i <= g.planets@.len(),
            g@ == start,
            drift@.len() == start.planets.len(),
            base == drifting(start.planets, start.comet_planet_ids, drift@),
            paths@ =~= base.paths.take(i as int),
        decreases g.planets@.len() - i,
    {
        let p = g.planets[i];
        let here = Point { x: p.x, y: p.y };
        let to = if has_id(&g.comet_planet_ids, p.id) {
            here
        } else {
            drift[i]
        };
        paths.push(PlanetPath { from: here, to, check: true });
        assert(paths@[i as int] == base.paths[i as int]);
        i += 1;
    }
    let mut m = PlanetMotion { paths, expired: Vec::new() };
    assert(m@ =~= base);
    let mut k: usize = 0;
    assert(moved.take(0) =~= Seq::<GroupModel>::empty());
    while k < g.comets.len()
        invariant
            k <= g.comets@.len(),
            start.valid(),
            g@ == (GameModel { comets: g@.comets, ..start }),
            g@.comets.len() == start.comets.len(),
            moved == stepped(start.comets),
            forall|j: int| 0 <= j < k ==> #[trigger] g@.comets[j] == moved[j],
            forall|j: int| k <= j < start.comets.len() ==> #[trigger] g@.comets[j] == start.comets[j],
            forall|j: int| 0 <= j < start.comets.len() ==> (#[trigger] start.comets[j]).path_index < i64::MAX,
            starts_right(start.planets, base),
            m@ == with_groups(start.planets, base, moved.take(k as int)),
        decreases g.comets@.len() - k,
    {
        let ghost before = g@.comets;
        assert(before[k as int] == start.comets[k as int]);
        assert(g.comets@[k as int]@ == before[k as int]);
        assert(start.comets[k as int].valid());
        let next: i64 = g.comets[k].path_index + 1;
        g.comets[k].path_index = next;
        assert(g.comets@[k as int]@ =~= moved[k as int]);
        assert forall|j: int| 0 <= j < g@.comets.len() && j != k implies #[trigger] g@.comets[j] == before[j] by {}
        let group = &g.comets[k];
        let ghost gm = moved[k as int];
        let ghost m0 = m@;
        proof {
            lemma_with_groups(start.planets, base, moved.take(k as int));
        }
        let mut c: usize = 0;
        while c < group.planet_ids.len()
            invariant
                c <= group.planet_ids@.len(),
                group@ == gm,
                gm.planet_ids.len() <= gm.paths.len(),
                gm.path_index >= 0,
                g.planets@ == start.planets,
                starts_right(start.planets, m0),
                m@ == with_group(start.planets, m0, gm, c as nat),
            decreases group.planet_ids@.len() - c,
        {
            proof {
                lemma_with_group(start.planets, m0, gm, c as nat);
            }
            let ghost before_m = m@;
            let pid: i64 = group.planet_ids[c];
            let idx: i64 = group.path_index;
            let path = &group.paths[c];
            assert(gm.paths[c as int] == path@);
            match find_planet(&g.planets, pid) {
                Some(j) => {
                    proof {
                        crate::state::lemma_planet_index(start.planets, pid);
                    }
                    let from = m.paths[j].from;
                    if idx as u64 >= path.len() as u64 {
                        m.expired.push(pid);
                        m.paths[j] = PlanetPath { from, to: from, check: true };
                    } else {
                        let zero = Double { bits: 0 };
                        m.paths[j] = PlanetPath { from, to: path[idx as usize], check: zero.le(from.x) };
                    }
                },
                None => {},
            }
            assert(m@ =~= with_comet(start.planets, before_m, pid, gm.paths[c as int], gm.path_index));
            c += 1;
        }
        assert(moved.take(k + 1).drop_last() =~= moved.take(k as int));
        k += 1;
    }
    assert(moved.take(k as int) =~= moved);
    assert(g@.comets =~= moved);
    assert forall|j: int| 0 <= j < moved.len() implies (#[trigger] moved[j]).valid() by {
        assert(start.comets[j].valid());
    }
    m
}

} // verus!
