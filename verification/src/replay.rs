//! Recorded games: the state of the game and the orders of the players, read
//! from a document in JSON.
//!
//! Where a document lacks what is looked for, there is no state and there are no
//! orders: the functions return `None`.

use crate::document::{parse, Node};
use crate::double::{Double, Point};
use crate::state::{CometGroup, Fleet, GameState, Move, Planet};
use vstd::prelude::*;

verus! {

use crate::document::Tree;
use crate::state::{GameModel, GroupModel};

/// The planet that a list describes: id, owner, x, y, radius, ships, production.
pub open spec fn planet_of(v: Tree) -> Option<Planet> {
    match (v.int_at(0), v.int_at(1), v.real_at(2), v.real_at(3), v.real_at(4), v.int_at(5), v.int_at(6)) {
        (Some(id), Some(owner), Some(x), Some(y), Some(radius), Some(ships), Some(production)) => Some(
            Planet { id, owner, x, y, radius, ships, production },
        ),
        _ => None,
    }
}

pub fn planet_from(v: &Node) -> (r: Option<Planet>)
    ensures
        r == planet_of(v.tree()),
        ({
            let t = v.tree();
            &&& r matches Some(p) ==> {
                &&& t.int_at(0) == Some(p.id)
                &&& t.int_at(1) == Some(p.owner)
                &&& t.real_at(2) == Some(p.x)
                &&& t.real_at(3) == Some(p.y)
                &&& t.real_at(4) == Some(p.radius)
                &&& t.int_at(5) == Some(p.ships)
                &&& t.int_at(6) == Some(p.production)
            }
            &&& r is None ==> t.int_at(0) is None || t.int_at(1) is None || t.real_at(2) is None || t.real_at(3) is None
                || t.real_at(4) is None || t.int_at(5) is None || t.int_at(6) is None
        }),
{
    match (v.i64_at(0), v.i64_at(1), v.f64_at(2), v.f64_at(3), v.f64_at(4), v.i64_at(5), v.i64_at(6)) {
        (Some(id), Some(owner), Some(x), Some(y), Some(radius), Some(ships), Some(production)) => Some(
            Planet { id, owner, x, y, radius, ships, production },
        ),
        _ => None,
    }
}

/// The fleet that a list describes: id, owner, x, y, angle, planet it comes from,
/// ships.
pub open spec fn fleet_of(v: Tree) -> Option<Fleet> {
    match (v.int_at(0), v.int_at(1), v.real_at(2), v.real_at(3), v.real_at(4), v.int_at(5), v.int_at(6)) {
        (Some(id), Some(owner), Some(x), Some(y), Some(angle), Some(from_planet_id), Some(ships)) => Some(
            Fleet { id, owner, x, y, angle, from_planet_id, ships },
        ),
        _ => None,
    }
}

pub fn fleet_from(v: &Node) -> (r: Option<Fleet>)
    ensures
        r == fleet_of(v.tree()),
        ({
            let t = v.tree();
            &&& r matches Some(f) ==> {
                &&& t.int_at(0) == Some(f.id)
                &&& t.int_at(1) == Some(f.owner)
                &&& t.real_at(2) == Some(f.x)
                &&& t.real_at(3) == Some(f.y)
                &&& t.real_at(4) == Some(f.angle)
                &&& t.int_at(5) == Some(f.from_planet_id)
                &&& t.int_at(6) == Some(f.ships)
            }
            &&& r is None ==> t.int_at(0) is None || t.int_at(1) is None || t.real_at(2) is None || t.real_at(3) is None
                || t.real_at(4) is None || t.int_at(5) is None || t.int_at(6) is None
        }),
{
    match (v.i64_at(0), v.i64_at(1), v.f64_at(2), v.f64_at(3), v.f64_at(4), v.i64_at(5), v.i64_at(6)) {
        (Some(id), Some(owner), Some(x), Some(y), Some(angle), Some(from_planet_id), Some(ships)) => Some(
            Fleet { id, owner, x, y, angle, from_planet_id, ships },
        ),
        _ => None,
    }
}

/// The point that a list describes: x, y.
pub open spec fn point_of(v: Tree) -> Option<Point> {
    match (v.real_at(0), v.real_at(1)) {
        (Some(x), Some(y)) => Some(Point { x, y }),
        _ => None,
    }
}

/// The planets that the items describe, if all do.
pub open spec fn planets_of(items: Seq<Tree>) -> Option<Seq<Planet>>
    decreases items.len(),
{
    if items.len() == 0 {
        Some(Seq::empty())
    } else {
        match (planets_of(items.drop_last()), planet_of(items.last())) {
            (Some(front), Some(p)) => Some(front.push(p)),
            _ => None,
        }
    }
}

/// The fleets that the items describe, if all do.
pub open spec fn fleets_of(items: Seq<Tree>) -> Option<Seq<Fleet>>
    decreases items.len(),
{
    if items.len() == 0 {
        Some(Seq::empty())
    } else {
        match (fleets_of(items.drop_last()), fleet_of(items.last())) {
            (Some(front), Some(f)) => Some(front.push(f)),
            _ => None,
        }
    }
}

/// The integers that the items are, if all are.
pub open spec fn ints_of(items: Seq<Tree>) -> Option<Seq<i64>>
    decreases items.len(),
{
    if items.len() == 0 {
        Some(Seq::empty())
    } else {
        match (ints_of(items.drop_last()), items.last().integer()) {
            (Some(front), Some(v)) => Some(front.push(v)),
            _ => None,
        }
    }
}

/// The points that the items describe, if all do.
pub open spec fn points_of(items: Seq<Tree>) -> Option<Seq<Point>>
    decreases items.len(),
{
    if items.len() == 0 {
        Some(Seq::empty())
    } else {
        match (points_of(items.drop_last()), point_of(items.last())) {
            (Some(front), Some(p)) => Some(front.push(p)),
            _ => None,
        }
    }
}

/// The points that a list of points describes.
pub open spec fn path_of(v: Tree) -> Option<Seq<Point>> {
    match v.items() {
        Some(items) => points_of(items),
        None => None,
    }
}

/// The paths that the items describe, if all do.
pub open spec fn paths_of(items: Seq<Tree>) -> Option<Seq<Seq<Point>>>
    decreases items.len(),
{
    if items.len() == 0 {
        Some(Seq::empty())
    } else {
        match (paths_of(items.drop_last()), path_of(items.last())) {
            (Some(front), Some(p)) => Some(front.push(p)),
            _ => None,
        }
    }
}

/// A prefix that describes nothing makes the whole describe nothing.
proof fn lemma_planets_gap(items: Seq<Tree>, n: int)
    requires
        0 <= n <= items.len(),
        planets_of(items.take(n)) is None,
    ensures
        planets_of(items) is None,
    decreases items.len(),
{
    if n < items.len() {
        assert(items.drop_last().take(n) =~= items.take(n));
        lemma_planets_gap(items.drop_last(), n);
    } else {
        assert(items.take(n) =~= items);
    }
}

proof fn lemma_fleets_gap(items: Seq<Tree>, n: int)
    requires
        0 <= n <= items.len(),
        fleets_of(items.take(n)) is None,
    ensures
        fleets_of(items) is None,
    decreases items.len(),
{
    if n < items.len() {
        assert(items.drop_last().take(n) =~= items.take(n));
        lemma_fleets_gap(items.drop_last(), n);
    } else {
        assert(items.take(n) =~= items);
    }
}

proof fn lemma_ints_gap(items: Seq<Tree>, n: int)
    requires
        0 <= n <= items.len(),
        ints_of(items.take(n)) is None,
    ensures
        ints_of(items) is None,
    decreases items.len(),
{
    if n < items.len() {
        assert(items.drop_last().take(n) =~= items.take(n));
        lemma_ints_gap(items.drop_last(), n);
    } else {
        assert(items.take(n) =~= items);
    }
}

proof fn lemma_points_gap(items: Seq<Tree>, n: int)
    requires
        0 <= n <= items.len(),
        points_of(items.take(n)) is None,
    ensures
        points_of(items) is None,
    decreases items.len(),
{
    if n < items.len() {
        assert(items.drop_last().take(n) =~= items.take(n));
        lemma_points_gap(items.drop_last(), n);
    } else {
        assert(items.take(n) =~= items);
    }
}

proof fn lemma_paths_gap(items: Seq<Tree>, n: int)
    requires
        0 <= n <= items.len(),
        paths_of(items.take(n)) is None,
    ensures
        paths_of(items) is None,
    decreases items.len(),
{
    if n < items.len() {
        assert(items.drop_last().take(n) =~= items.take(n));
        lemma_paths_gap(items.drop_last(), n);
    } else {
        assert(items.take(n) =~= items);
    }
}

fn planets_from(items: &Vec<Node>) -> (r: Option<Vec<Planet>>)
    ensures
        match r {
            Some(v) => planets_of(crate::document::trees(items@)) == Some(v@),
            None => planets_of(crate::document::trees(items@)) is None,
        },
{
    let mut r: Vec<Planet> = Vec::new();
    let mut i: usize = 0;
    assert(crate::document::trees(items@).take(0) =~= Seq::<Tree>::empty());
    while i < items.len()
        invariant
            i <= items@.len(),
            planets_of(crate::document::trees(items@).take(i as int)) == Some(r@),
        decreases items@.len() - i,
    {
        assert(crate::document::trees(items@).take(i + 1).drop_last() =~= crate::document::trees(items@).take(i as int));
        match planet_from(&items[i]) {
            Some(p) => {
                r.push(p);
            },
            None => {
                proof {
                    lemma_planets_gap(crate::document::trees(items@), i + 1);
                }
                return None;
            },
        }
        i += 1;
    }
    assert(crate::document::trees(items@).take(i as int) =~= crate::document::trees(items@));
    Some(r)
}

fn fleets_from(items: &Vec<Node>) -> (r: Option<Vec<Fleet>>)
    ensures
        match r {
            Some(v) => fleets_of(crate::document::trees(items@)) == Some(v@),
            None => fleets_of(crate::document::trees(items@)) is None,
        },
{
    let mut r: Vec<Fleet> = Vec::new();
    let mut i: usize = 0;
    assert(crate::document::trees(items@).take(0) =~= Seq::<Tree>::empty());
    while i < items.len()
        invariant
            i <= items@.len(),
            fleets_of(crate::document::trees(items@).take(i as int)) == Some(r@),
        decreases items@.len() - i,
    {
        assert(crate::document::trees(items@).take(i + 1).drop_last() =~= crate::document::trees(items@).take(i as int));
        match fleet_from(&items[i]) {
            Some(f) => {
                r.push(f);
            },
            None => {
                proof {
                    lemma_fleets_gap(crate::document::trees(items@), i + 1);
                }
                return None;
            },
        }
        i += 1;
    }
    assert(crate::document::trees(items@).take(i as int) =~= crate::document::trees(items@));
    Some(r)
}

fn ints_from(items: &Vec<Node>) -> (r: Option<Vec<i64>>)
    ensures
        match r {
            Some(v) => ints_of(crate::document::trees(items@)) == Some(v@),
            None => ints_of(crate::document::trees(items@)) is None,
        },
{
    let mut r: Vec<i64> = Vec::new();
    let mut i: usize = 0;
    assert(crate::document::trees(items@).take(0) =~= Seq::<Tree>::empty());
    while i < items.len()
        invariant
            i <= items@.len(),
            ints_of(crate::document::trees(items@).take(i as int)) == Some(r@),
        decreases items@.len() - i,
    {
        assert(crate::document::trees(items@).take(i + 1).drop_last() =~= crate::document::trees(items@).take(i as int));
        match items[i].as_i64() {
            Some(v) => {
                r.push(v);
            },
            None => {
                proof {
                    lemma_ints_gap(crate::document::trees(items@), i + 1);
                }
                return None;
            },
        }
        i += 1;
    }
    assert(crate::document::trees(items@).take(i as int) =~= crate::document::trees(items@));
    Some(r)
}

fn path_from(v: &Node) -> (r: Option<Vec<Point>>)
    ensures
        match r {
            Some(p) => path_of(v.tree()) == Some(p@),
            None => path_of(v.tree()) is None,
        },
{
    let items = match v.as_array() {
        Some(items) => items,
        None => {
            return None;
        },
    };
    let mut r: Vec<Point> = Vec::new();
    let mut i: usize = 0;
    assert(crate::document::trees(items@).take(0) =~= Seq::<Tree>::empty());
    while i < items.len()
        invariant
            i <= items@.len(),
            v.tree().items() == Some(crate::document::trees(items@)),
            points_of(crate::document::trees(items@).take(i as int)) == Some(r@),
        decreases items@.len() - i,
    {
        assert(crate::document::trees(items@).take(i + 1).drop_last() =~= crate::document::trees(items@).take(i as int));
        match (items[i].f64_at(0), items[i].f64_at(1)) {
            (Some(x), Some(y)) => {
                r.push(Point { x, y });
            },
            _ => {
                proof {
                    lemma_points_gap(crate::document::trees(items@), i + 1);
                }
                return None;
            },
        }
        i += 1;
    }
    assert(crate::document::trees(items@).take(i as int) =~= crate::document::trees(items@));
    Some(r)
}

fn paths_from(items: &Vec<Node>) -> (r: Option<Vec<Vec<Point>>>)
    ensures
        match r {
            Some(v) => paths_of(crate::document::trees(items@)) == Some(crate::state::paths_model(v@)),
            None => paths_of(crate::document::trees(items@)) is None,
        },
{
    let mut r: Vec<Vec<Point>> = Vec::new();
    let mut i: usize = 0;
    assert(crate::document::trees(items@).take(0) =~= Seq::<Tree>::empty());
    assert(crate::state::paths_model(r@) =~= Seq::<Seq<Point>>::empty());
    while i < items.len()
        invariant
            i <= items@.len(),
            paths_of(crate::document::trees(items@).take(i as int)) == Some(crate::state::paths_model(r@)),
        decreases items@.len() - i,
    {
        assert(crate::document::trees(items@).take(i + 1).drop_last() =~= crate::document::trees(items@).take(i as int));
        match path_from(&items[i]) {
            Some(p) => {
                let ghost before = crate::state::paths_model(r@);
                let ghost pm = p@;
                r.push(p);
                assert(crate::state::paths_model(r@) =~= before.push(pm));
            },
            None => {
                proof {
                    lemma_paths_gap(crate::document::trees(items@), i + 1);
                }
                return None;
            },
        }
        i += 1;
    }
    assert(crate::document::trees(items@).take(i as int) =~= crate::document::trees(items@));
    Some(r)
}

/// The comet group that an object describes.
pub open spec fn group_of(v: Tree) -> Option<GroupModel> {
    match (v.items_of("planet_ids"@), v.items_of("paths"@), v.int_of("path_index"@)) {
        (Some(ids), Some(paths), Some(path_index)) => match (ints_of(ids), paths_of(paths)) {
            (Some(planet_ids), Some(paths)) => Some(
                GroupModel { planet_ids, paths, path_index: path_index as int },
            ),
            _ => None,
        },
        _ => None,
    }
}

pub fn comet_group_from(v: &Node) -> (r: Option<CometGroup>)
    ensures
        match r {
            Some(g) => group_of(v.tree()) == Some(g@),
            None => group_of(v.tree()) is None,
        },
{
    match (v.array_of("planet_ids"), v.array_of("paths"), v.i64_of("path_index")) {
        (Some(ids), Some(paths), Some(path_index)) => match (ints_from(ids), paths_from(paths)) {
            (Some(planet_ids), Some(paths)) => Some(CometGroup { planet_ids, paths, path_index }),
            _ => None,
        },
        _ => None,
    }
}

/// The comet groups that the items describe, if all do.
pub open spec fn groups_of(items: Seq<Tree>) -> Option<Seq<GroupModel>>
    decreases items.len(),
{
    if items.len() == 0 {
        Some(Seq::empty())
    } else {
        match (groups_of(items.drop_last()), group_of(items.last())) {
            (Some(front), Some(g)) => Some(front.push(g)),
            _ => None,
        }
    }
}

proof fn lemma_groups_gap(items: Seq<Tree>, n: int)
    requires
        0 <= n <= items.len(),
        groups_of(items.take(n)) is None,
    ensures
        groups_of(items) is None,
    decreases items.len(),
{
    if n < items.len() {
        assert(items.drop_last().take(n) =~= items.take(n));
        lemma_groups_gap(items.drop_last(), n);
    } else {
        assert(items.take(n) =~= items);
    }
}

fn groups_from(items: &Vec<Node>) -> (r: Option<Vec<CometGroup>>)
    ensures
        match r {
            Some(v) => groups_of(crate::document::trees(items@)) == Some(crate::state::groups_model(v@)),
            None => groups_of(crate::document::trees(items@)) is None,
        },
{
    let mut r: Vec<CometGroup> = Vec::new();
    let mut i: usize = 0;
    assert(crate::document::trees(items@).take(0) =~= Seq::<Tree>::empty());
    assert(crate::state::groups_model(r@) =~= Seq::<GroupModel>::empty());
    while i < items.len()
        invariant
            i <= items@.len(),
            groups_of(crate::document::trees(items@).take(i as int)) == Some(crate::state::groups_model(r@)),
        decreases items@.len() - i,
    {
        assert(crate::document::trees(items@).take(i + 1).drop_last() =~= crate::document::trees(items@).take(i as int));
        match comet_group_from(&items[i]) {
            Some(g) => {
                let ghost before = crate::state::groups_model(r@);
                let ghost gm = g@;
                r.push(g);
                assert(crate::state::groups_model(r@) =~= before.push(gm));
            },
            None => {
                proof {
                    lemma_groups_gap(crate::document::trees(items@), i + 1);
                }
                return None;
            },
        }
        i += 1;
    }
    assert(crate::document::trees(items@).take(i as int) =~= crate::document::trees(items@));
    Some(r)
}

/// The list with the name, as planets.
pub open spec fn named_planets(v: Tree, name: Seq<char>) -> Option<Seq<Planet>> {
    match v.items_of(name) {
        Some(items) => planets_of(items),
        None => None,
    }
}

/// The list with the name, as fleets.
pub open spec fn named_fleets(v: Tree, name: Seq<char>) -> Option<Seq<Fleet>> {
    match v.items_of(name) {
        Some(items) => fleets_of(items),
        None => None,
    }
}

/// The list with the name, as integers.
pub open spec fn named_ints(v: Tree, name: Seq<char>) -> Option<Seq<i64>> {
    match v.items_of(name) {
        Some(items) => ints_of(items),
        None => None,
    }
}

/// The list with the name, as comet groups.
pub open spec fn named_groups(v: Tree, name: Seq<char>) -> Option<Seq<GroupModel>> {
    match v.items_of(name) {
        Some(items) => groups_of(items),
        None => None,
    }
}

/// The number with the name.
pub open spec fn named_real(v: Tree, name: Seq<char>) -> Option<Double> {
    match v.get(name) {
        Some(n) => n.double(),
        None => None,
    }
}

/// The state of the game that an observation describes.
pub open spec fn state_of(obs: Tree) -> Option<GameModel> {
    match (
        named_planets(obs, "planets"@),
        named_fleets(obs, "fleets"@),
        obs.int_of("next_fleet_id"@),
        named_groups(obs, "comets"@),
        named_ints(obs, "comet_planet_ids"@),
        named_planets(obs, "initial_planets"@),
        named_real(obs, "angular_velocity"@),
    ) {
        (
            Some(planets),
            Some(fleets),
            Some(next_fleet_id),
            Some(comets),
            Some(comet_planet_ids),
            Some(initial_planets),
            Some(angular_velocity),
        ) => Some(
            GameModel {
                planets,
                fleets,
                next_fleet_id: next_fleet_id as int,
                comets,
                comet_planet_ids,
                initial_planets,
                angular_velocity,
            },
        ),
        _ => None,
    }
}

/// The items are planets just where each of them is one; each then gives its own.
pub proof fn lemma_planets_of(items: Seq<Tree>)
    ensures
        match planets_of(items) {
            Some(all) => all.len() == items.len() && forall|i: int|
                0 <= i < items.len() ==> planet_of(#[trigger] items[i]) == Some(all[i]),
            None => exists|i: int| 0 <= i < items.len() && planet_of(#[trigger] items[i]) is None,
        },
    decreases items.len(),
{
    if items.len() > 0 {
        let front = items.drop_last();
        let last = items.len() - 1;
        lemma_planets_of(front);
        if let Some(all) = planets_of(items) {
            let before = planets_of(front)->0;
            assert forall|i: int| 0 <= i < items.len() implies planet_of(#[trigger] items[i]) == Some(all[i]) by {
                if i < last {
                    assert(planet_of(front[i]) == Some(before[i]));
                }
            }
        } else if planets_of(front) is None {
            let i = choose|i: int| 0 <= i < front.len() && planet_of(#[trigger] front[i]) is None;
            assert(planet_of(items[i]) is None);
        } else {
            assert(planet_of(items[last]) is None);
        }
    }
}

/// The items are fleets just where each of them is one; each then gives its own.
pub proof fn lemma_fleets_of(items: Seq<Tree>)
    ensures
        match fleets_of(items) {
            Some(all) => all.len() == items.len() && forall|i: int|
                0 <= i < items.len() ==> fleet_of(#[trigger] items[i]) == Some(all[i]),
            None => exists|i: int| 0 <= i < items.len() && fleet_of(#[trigger] items[i]) is None,
        },
    decreases items.len(),
{
    if items.len() > 0 {
        let front = items.drop_last();
        let last = items.len() - 1;
        lemma_fleets_of(front);
        if let Some(all) = fleets_of(items) {
            let before = fleets_of(front)->0;
            assert forall|i: int| 0 <= i < items.len() implies fleet_of(#[trigger] items[i]) == Some(all[i]) by {
                if i < last {
                    assert(fleet_of(front[i]) == Some(before[i]));
                }
            }
        } else if fleets_of(front) is None {
            let i = choose|i: int| 0 <= i < front.len() && fleet_of(#[trigger] front[i]) is None;
            assert(fleet_of(items[i]) is None);
        } else {
            assert(fleet_of(items[last]) is None);
        }
    }
}

/// The items are points just where each of them is one; each then gives its own.
pub proof fn lemma_points_of(items: Seq<Tree>)
    ensures
        match points_of(items) {
            Some(all) => all.len() == items.len() && forall|i: int|
                0 <= i < items.len() ==> point_of(#[trigger] items[i]) == Some(all[i]),
            None => exists|i: int| 0 <= i < items.len() && point_of(#[trigger] items[i]) is None,
        },
    decreases items.len(),
{
    if items.len() > 0 {
        let front = items.drop_last();
        let last = items.len() - 1;
        lemma_points_of(front);
        if let Some(all) = points_of(items) {
            let before = points_of(front)->0;
            assert forall|i: int| 0 <= i < items.len() implies point_of(#[trigger] items[i]) == Some(all[i]) by {
                if i < last {
                    assert(point_of(front[i]) == Some(before[i]));
                }
            }
        } else if points_of(front) is None {
            let i = choose|i: int| 0 <= i < front.len() && point_of(#[trigger] front[i]) is None;
            assert(point_of(items[i]) is None);
        } else {
            assert(point_of(items[last]) is None);
        }
    }
}

/// The items are paths just where each of them is one; each then gives its own.
pub proof fn lemma_paths_of(items: Seq<Tree>)
    ensures
        match paths_of(items) {
            Some(all) => all.len() == items.len() && forall|i: int|
                0 <= i < items.len() ==> path_of(#[trigger] items[i]) == Some(all[i]),
            None => exists|i: int| 0 <= i < items.len() && path_of(#[trigger] items[i]) is None,
        },
    decreases items.len(),
{
    if items.len() > 0 {
        let front = items.drop_last();
        let last = items.len() - 1;
        lemma_paths_of(front);
        if let Some(all) = paths_of(items) {
            let before = paths_of(front)->0;
            assert forall|i: int| 0 <= i < items.len() implies path_of(#[trigger] items[i]) == Some(all[i]) by {
                if i < last {
                    assert(path_of(front[i]) == Some(before[i]));
                }
            }
        } else if paths_of(front) is None {
            let i = choose|i: int| 0 <= i < front.len() && path_of(#[trigger] front[i]) is None;
            assert(path_of(items[i]) is None);
        } else {
            assert(path_of(items[last]) is None);
        }
    }
}

/// The items are comet groups just where each of them is one; each then gives its own.
pub proof fn lemma_groups_of(items: Seq<Tree>)
    ensures
        match groups_of(items) {
            Some(all) => all.len() == items.len() && forall|i: int|
                0 <= i < items.len() ==> group_of(#[trigger] items[i]) == Some(all[i]),
            None => exists|i: int| 0 <= i < items.len() && group_of(#[trigger] items[i]) is None,
        },
    decreases items.len(),
{
    if items.len() > 0 {
        let front = items.drop_last();
        let last = items.len() - 1;
        lemma_groups_of(front);
        if let Some(all) = groups_of(items) {
            let before = groups_of(front)->0;
            assert forall|i: int| 0 <= i < items.len() implies group_of(#[trigger] items[i]) == Some(all[i]) by {
                if i < last {
                    assert(group_of(front[i]) == Some(before[i]));
                }
            }
        } else if groups_of(front) is None {
            let i = choose|i: int| 0 <= i < front.len() && group_of(#[trigger] front[i]) is None;
            assert(group_of(items[i]) is None);
        } else {
            assert(group_of(items[last]) is None);
        }
    }
}

/// The items are integers just where each of them is one; each then gives its own.
pub proof fn lemma_ints_of(items: Seq<Tree>)
    ensures
        match ints_of(items) {
            Some(all) => all.len() == items.len() && forall|i: int|
                0 <= i < items.len() ==> (#[trigger] items[i]).integer() == Some(all[i]),
            None => exists|i: int| 0 <= i < items.len() && (#[trigger] items[i]).integer() is None,
        },
    decreases items.len(),
{
    if items.len() > 0 {
        let front = items.drop_last();
        let last = items.len() - 1;
        lemma_ints_of(front);
        if let Some(all) = ints_of(items) {
            let before = ints_of(front)->0;
            assert forall|i: int| 0 <= i < items.len() implies (#[trigger] items[i]).integer() == Some(all[i]) by {
                if i < last {
                    assert(front[i].integer() == Some(before[i]));
                }
            }
        } else if ints_of(front) is None {
            let i = choose|i: int| 0 <= i < front.len() && (#[trigger] front[i]).integer() is None;
            assert(items[i].integer() is None);
        } else {
            assert(items[last].integer() is None);
        }
    }
}

/// An observation describes a state just where each of its parts is there, under its
/// name, and can be read; the state has these parts.
pub proof fn lemma_state_of(obs: Tree)
    ensures
        ({
            let planets = obs.items_of("planets"@);
            let fleets = obs.items_of("fleets"@);
            let comets = obs.items_of("comets"@);
            let ids = obs.items_of("comet_planet_ids"@);
            let first = obs.items_of("initial_planets"@);
            let next = obs.int_of("next_fleet_id"@);
            let turn = obs.get("angular_velocity"@);
            let readable = planets is Some && planets_of(planets->0) is Some && fleets is Some && fleets_of(fleets->0)
                is Some && comets is Some && groups_of(comets->0) is Some && ids is Some && ints_of(ids->0) is Some
                && first is Some && planets_of(first->0) is Some && next is Some && turn is Some
                && turn->0.double() is Some;
            &&& state_of(obs) is Some <==> readable
            &&& state_of(obs) matches Some(g) ==> {
                &&& planets_of(planets->0) == Some(g.planets)
                &&& fleets_of(fleets->0) == Some(g.fleets)
                &&& groups_of(comets->0) == Some(g.comets)
                &&& ints_of(ids->0) == Some(g.comet_planet_ids)
                &&& planets_of(first->0) == Some(g.initial_planets)
                &&& next->0 == g.next_fleet_id
                &&& turn->0.double() == Some(g.angular_velocity)
            }
        }),
{
}

fn planets_named(v: &Node, name: &str) -> (r: Option<Vec<Planet>>)
    ensures
        match r {
            Some(p) => named_planets(v.tree(), name@) == Some(p@),
            None => named_planets(v.tree(), name@) is None,
        },
{
    match v.array_of(name) {
        Some(items) => planets_from(items),
        None => None,
    }
}

/// Reads the state of the game from an observation.
pub fn state_from_obs(obs: &Node) -> (r: Option<GameState>)
    ensures
        match r {
            Some(g) => state_of(obs.tree()) == Some(g@),
            None => state_of(obs.tree()) is None,
        },
{
    let planets = planets_named(obs, "planets");
    let fleets = match obs.array_of("fleets") {
        Some(items) => fleets_from(items),
        None => None,
    };
    let next_fleet_id = obs.i64_of("next_fleet_id");
    let comets = match obs.array_of("comets") {
        Some(items) => groups_from(items),
        None => None,
    };
    let comet_planet_ids = match obs.array_of("comet_planet_ids") {
        Some(items) => ints_from(items),
        None => None,
    };
    let initial_planets = planets_named(obs, "initial_planets");
    let angular_velocity = match obs.member("angular_velocity") {
        Some(v) => v.as_f64(),
        None => None,
    };
    match (planets, fleets, next_fleet_id, comets, comet_planet_ids, initial_planets, angular_velocity) {
        (
            Some(planets),
            Some(fleets),
            Some(next_fleet_id),
            Some(comets),
            Some(comet_planet_ids),
            Some(initial_planets),
            Some(angular_velocity),
        ) => Some(
            GameState {
                planets,
                fleets,
                next_fleet_id,
                comets,
                comet_planet_ids,
                initial_planets,
                angular_velocity,
            },
        ),
        _ => None,
    }
}

/// The step that an observation gives; 0 where it gives none.
pub open spec fn step_of(obs: Tree) -> i64 {
    match obs.int_of("step"@) {
        Some(k) => k,
        None => 0,
    }
}

/// The step of an observation.
pub fn step_from_obs(obs: &Node) -> (k: i64)
    ensures
        k == step_of(obs.tree()),
        match obs.tree().int_of("step"@) {
            Some(given) => k == given,
            None => k == 0,
        },
{
    match obs.i64_of("step") {
        Some(k) => k,
        None => 0,
    }
}

/// Reads the state of the game and the step from the text of an observation;
/// `None` where the text is no document, or the document describes no state.
pub fn read_obs(text: &str) -> (r: Option<(GameState, i64)>)
    ensures
        match r {
            Some((g, k)) => crate::document::json(text@) matches Some(obs) && state_of(obs) == Some(g@) && k
                == step_of(obs),
            None => crate::document::json(text@) matches Some(obs) ==> state_of(obs) is None,
        },
{
    match parse(text) {
        Some(obs) => match state_from_obs(&obs) {
            Some(g) => Some((g, step_from_obs(&obs))),
            None => None,
        },
        None => None,
    }
}

/// The member with the name of what player `p` has at step `k`.
pub open spec fn record(steps: Tree, k: int, p: int, name: Seq<char>) -> Option<Tree> {
    match steps.at(k) {
        Some(step) => match step.at(p) {
            Some(player) => player.get(name),
            None => None,
        },
        None => None,
    }
}

fn find_record<'a>(steps: &'a Node, k: usize, p: usize, name: &str) -> (r: Option<&'a Node>)
    ensures
        match r {
            Some(v) => record(steps.tree(), k as int, p as int, name@) == Some(v.tree()),
            None => record(steps.tree(), k as int, p as int, name@) is None,
        },
{
    match steps.item(k) {
        Some(step) => match step.item(p) {
            Some(player) => player.member(name),
            None => None,
        },
        None => None,
    }
}

/// The observation of the first player at step `k`; null where there is none.
pub fn obs_of<'a>(steps: &'a Node, k: usize) -> (r: &'a Node)
    ensures
        r.tree() == (match record(steps.tree(), k as int, 0, "observation"@) {
            Some(v) => v,
            None => Tree::Null,
        }),
        ({
            let t = steps.tree();
            let there = t.at(k as int) is Some && t.at(k as int)->0.at(0) is Some;
            let seen = t.at(k as int)->0.at(0)->0.get("observation"@);
            &&& there && seen is Some ==> r.tree() == seen->0
            &&& !there || seen is None ==> r.tree() == Tree::Null
        }),
{
    match find_record(steps, k, 0, "observation") {
        Some(v) => v,
        None => &Node::Null,
    }
}

/// Whether the value is a list of three, as an order is.
pub open spec fn looks_like_order(v: Tree) -> bool {
    match v.items() {
        Some(items) => items.len() == 3,
        None => false,
    }
}

/// The order that a list of three describes: planet, angle, ships. Ships may be
/// given with a fraction, which is dropped.
pub open spec fn order_of(v: Tree) -> Option<Move> {
    match (v.int_at(0), v.real_at(1), v.real_at(2)) {
        (Some(from_id), Some(angle), Some(ships)) => Some(
            Move { from_id, angle, ships: ships.truncation() as i64 },
        ),
        _ => None,
    }
}

/// The orders among the items, if all that look like one are; the other items
/// are passed over.
pub open spec fn orders_of(items: Seq<Tree>) -> Option<Seq<Move>>
    decreases items.len(),
{
    if items.len() == 0 {
        Some(Seq::empty())
    } else {
        match orders_of(items.drop_last()) {
            Some(front) => if looks_like_order(items.last()) {
                match order_of(items.last()) {
                    Some(m) => Some(front.push(m)),
                    None => None,
                }
            } else {
                Some(front)
            },
            None => None,
        }
    }
}

/// The orders of player `p` at step `k`: none where there is no list of them.
pub open spec fn player_orders(steps: Tree, k: int, p: int) -> Option<Seq<Move>> {
    match record(steps, k, p, "action"@) {
        Some(v) => match v.items() {
            Some(items) => orders_of(items),
            None => Some(Seq::empty()),
        },
        None => Some(Seq::empty()),
    }
}

/// The orders of the first `n` players at step `k`.
pub open spec fn all_orders(steps: Tree, k: int, n: nat) -> Option<Seq<Seq<Move>>>
    decreases n,
{
    if n == 0 {
        Some(Seq::empty())
    } else {
        match (all_orders(steps, k, (n - 1) as nat), player_orders(steps, k, n - 1)) {
            (Some(front), Some(m)) => Some(front.push(m)),
            _ => None,
        }
    }
}

/// Of the items, one that is no list of three is passed over; a list of three adds the
/// order that it is, from the planet, at the angle and with the ships that it gives in
/// this order, without a fraction of a ship; and one that is no order leaves no orders.
pub proof fn lemma_orders(items: Seq<Tree>, v: Tree)
    requires
        orders_of(items) is Some,
    ensures
        orders_of(Seq::empty()) == Some(Seq::<Move>::empty()),
        ({
            let before = orders_of(items)->0;
            let after = orders_of(items.push(v));
            let three = v.items() is Some && v.items()->0.len() == 3;
            let whole = v.int_at(0) is Some && v.real_at(1) is Some && v.real_at(2) is Some;
            &&& !three ==> after == Some(before)
            &&& three && !whole ==> after is None
            &&& three && whole ==> after is Some && after->0 == before.push(
                Move {
                    from_id: v.int_at(0)->0,
                    angle: v.real_at(1)->0,
                    ships: v.real_at(2)->0.truncation() as i64,
                },
            )
        }),
{
    assert(items.push(v).drop_last() =~= items);
}

/// The orders of the players can be read just where those of each of them can; they are
/// then listed player by player.
pub proof fn lemma_all_orders(steps: Tree, k: int, n: nat)
    ensures
        match all_orders(steps, k, n) {
            Some(all) => all.len() == n && forall|p: int|
                0 <= p < n ==> #[trigger] player_orders(steps, k, p) == Some(all[p]),
            None => exists|p: int| 0 <= p < n && (#[trigger] player_orders(steps, k, p)) is None,
        },
    decreases n,
{
    if n > 0 {
        lemma_all_orders(steps, k, (n - 1) as nat);
        let last = player_orders(steps, k, n - 1);
        if let Some(all) = all_orders(steps, k, n) {
            let front = all_orders(steps, k, (n - 1) as nat)->0;
            assert forall|p: int| 0 <= p < n implies #[trigger] player_orders(steps, k, p) == Some(all[p]) by {
                if p < n - 1 {
                    assert(player_orders(steps, k, p) == Some(front[p]));
                }
            }
        }
    }
}

/// The orders of player `p` at step `k` stand under `action` in item `p` of item `k`;
/// where no list does, the player gave none.
pub proof fn lemma_player_orders(steps: Tree, k: int, p: int)
    ensures
        ({
            let there = steps.at(k) is Some && steps.at(k)->0.at(p) is Some;
            let list = steps.at(k)->0.at(p)->0.items_of("action"@);
            &&& there && list is Some ==> player_orders(steps, k, p) == orders_of(list->0)
            &&& !there || list is None ==> player_orders(steps, k, p) == Some(Seq::<Move>::empty())
        }),
{
}

proof fn lemma_orders_gap(items: Seq<Tree>, n: int)
    requires
        0 <= n <= items.len(),
        orders_of(items.take(n)) is None,
    ensures
        orders_of(items) is None,
    decreases items.len(),
{
    if n < items.len() {
        assert(items.drop_last().take(n) =~= items.take(n));
        lemma_orders_gap(items.drop_last(), n);
    } else {
        assert(items.take(n) =~= items);
    }
}

proof fn lemma_players_gap(steps: Tree, k: int, n: nat, m: nat)
    requires
        n <= m,
        all_orders(steps, k, n) is None,
    ensures
        all_orders(steps, k, m) is None,
    decreases m,
{
    if n < m {
        lemma_players_gap(steps, k, n, (m - 1) as nat);
    }
}

fn orders_from(items: &Vec<Node>) -> (r: Option<Vec<Move>>)
    ensures
        match r {
            Some(v) => orders_of(crate::document::trees(items@)) == Some(v@),
            None => orders_of(crate::document::trees(items@)) is None,
        },
{
    let mut r: Vec<Move> = Vec::new();
    let mut i: usize = 0;
    assert(crate::document::trees(items@).take(0) =~= Seq::<Tree>::empty());
    while i < items.len()
        invariant
            i <= items@.len(),
            orders_of(crate::document::trees(items@).take(i as int)) == Some(r@),
        decreases items@.len() - i,
    {
        assert(crate::document::trees(items@).take(i + 1).drop_last() =~= crate::document::trees(items@).take(i as int));
        let v = &items[i];
        let three = match v.as_array() {
            Some(list) => list.len() == 3,
            None => false,
        };
        if three {
            match (v.i64_at(0), v.f64_at(1), v.f64_at(2)) {
                (Some(from_id), Some(angle), Some(ships)) => {
                    r.push(Move { from_id, angle, ships: ships.truncated() });
                },
                _ => {
                    proof {
                        lemma_orders_gap(crate::document::trees(items@), i + 1);
                    }
                    return None;
                },
            }
        }
        i += 1;
    }
    assert(crate::document::trees(items@).take(i as int) =~= crate::document::trees(items@));
    Some(r)
}

/// The orders of `n_agents` players that were given at step `k`, player by
/// player.
pub fn actions_at(steps: &Node, k: usize, n_agents: usize) -> (r: Option<Vec<Vec<Move>>>)
    ensures
        match r {
            Some(v) => all_orders(steps.tree(), k as int, n_agents as nat) matches Some(all) && all.len() == v@.len()
                && forall|p: int| 0 <= p < v@.len() ==> (#[trigger] v@[p])@ == all[p],
            None => all_orders(steps.tree(), k as int, n_agents as nat) is None,
        },
        match r {
            Some(v) => v@.len() == n_agents && forall|p: int|
                0 <= p < n_agents ==> #[trigger] player_orders(steps.tree(), k as int, p) == Some(v@[p]@),
            None => exists|p: int|
                0 <= p < n_agents && (#[trigger] player_orders(steps.tree(), k as int, p)) is None,
        },
{
    proof {
        lemma_all_orders(steps.tree(), k as int, n_agents as nat);
    }
    let mut r: Vec<Vec<Move>> = Vec::new();
    let mut p: usize = 0;
    let ghost mut all = Seq::<Seq<Move>>::empty();
    while p < n_agents
        invariant
            p <= n_agents,
            all_orders(steps.tree(), k as int, p as nat) == Some(all),
            all.len() == r@.len(),
            forall|q: int| 0 <= q < r@.len() ==> (#[trigger] r@[q])@ == all[q],
        decreases n_agents - p,
    {
        let moves = match find_record(steps, k, p, "action") {
            Some(v) => match v.as_array() {
                Some(items) => orders_from(items),
                None => Some(Vec::new()),
            },
            None => Some(Vec::new()),
        };
        match moves {
            Some(m) => {
                proof {
                    all = all.push(m@);
                }
                r.push(m);
            },
            None => {
                proof {
                    lemma_players_gap(steps.tree(), k as int, (p + 1) as nat, n_agents as nat);
                    lemma_all_orders(steps.tree(), k as int, n_agents as nat);
                }
                return None;
            },
        }
        p += 1;
    }
    proof {
        lemma_all_orders(steps.tree(), k as int, n_agents as nat);
    }
    Some(r)
}

} // verus!
