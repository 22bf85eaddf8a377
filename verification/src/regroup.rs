//! Moving ships between own planets: what the planner does with what its waves
//! leave.

use crate::double::Double;
use crate::flow::{safe_drain_planet, GarrisonStatus};
use crate::garrison::fleet_eta;
use crate::planner::{owned, Request, Shot};
use crate::ranking::{best_of, Ranked};
use crate::state::{has_id, GameState, Move, Planet};
use vstd::prelude::*;

verus! {

use crate::state::GameModel;

/// The planets of `own` that have at least `min` ships left besides those
/// committed, with what they have left.
pub open spec fn leftovers(planets: Seq<Planet>, own: Seq<usize>, committed: Seq<i64>, min: i64) -> Seq<Ranked>
    decreases own.len(),
{
    if own.len() == 0 {
        Seq::empty()
    } else {
        let front = leftovers(planets, own.drop_last(), committed, min);
        let left = planets[own.last() as int].ships - committed[own.last() as int];
        if left >= min {
            front.push(Ranked { key: left as i128, idx: own.last() })
        } else {
            front
        }
    }
}

/// The `max` planets of `player` that have the most ships left.
pub fn regroup_sources(g: &GameState, player: i64, committed: &Vec<i64>, min: i64, max: usize) -> (r: Vec<usize>)
    requires
        committed@.len() == g@.planets.len(),
        forall|i: int| 0 <= i < g@.planets.len() ==> 0 <= #[trigger] committed@[i] <= g@.planets[i].ships,
    ensures
        r@ == crate::ranking::best(
            leftovers(g@.planets, crate::planner::held(g@.planets, player), committed@, min),
            max as nat,
        ),
        forall|k: int|
            0 <= k < r@.len() ==> (#[trigger] r@[k]) < g@.planets.len() && g@.planets[r@[k] as int].owner == player,
        r@.len() <= max,
        forall|k: int|
            0 <= k < r@.len() ==> g@.planets[(#[trigger] r@[k]) as int].ships - committed@[r@[k] as int] >= min,
        forall|i: int|
            0 <= i < g@.planets.len() && (#[trigger] g@.planets[i]).owner == player && g@.planets[i].ships - committed@[i]
                >= min ==> r@.len() == max || r@.contains(i as usize),
        forall|i: int, j: int|
            0 <= i < g@.planets.len() && 0 <= j < g@.planets.len() && (#[trigger] g@.planets[i]).owner == player && (
            #[trigger] g@.planets[j]).owner == player && g@.planets[i].ships - committed@[i] >= min
                && g@.planets[j].ships - committed@[j] >= min && (g@.planets[i].ships - committed@[i] > g@.planets[j].ships
                - committed@[j] || (g@.planets[i].ships - committed@[i] == g@.planets[j].ships - committed@[j] && i < j))
                ==> crate::ranking::leads(r@, i as usize, j as usize),
{
    let own = owned(g, player);
    let mut items: Vec<Ranked> = Vec::new();
    let mut i: usize = 0;
    assert(own@.take(0) =~= Seq::<usize>::empty());
    while i < own.len()
        invariant
            i <= own@.len(),
            committed@.len() == g@.planets.len(),
            forall|k: int| 0 <= k < g@.planets.len() ==> 0 <= #[trigger] committed@[k] <= g@.planets[k].ships,
            forall|k: int|
                0 <= k < own@.len() ==> (#[trigger] own@[k]) < g@.planets.len() && g@.planets[own@[k] as int].owner
                    == player,
            items@ == leftovers(g@.planets, own@.take(i as int), committed@, min),
            forall|k: int|
                0 <= k < items@.len() ==> (#[trigger] items@[k]).idx < g@.planets.len()
                    && g@.planets[items@[k].idx as int].owner == player,
        decreases own@.len() - i,
    {
        assert(own@.take(i + 1).drop_last() =~= own@.take(i as int));
        let at: usize = own[i];
        assert(own@[i as int] < g@.planets.len());
        assert(0 <= committed@[at as int] <= g@.planets[at as int].ships);
        let left: i64 = g.planets[at].ships - committed[at];
        if left >= min {
            items.push(Ranked { key: left as i128, idx: at });
        }
        i += 1;
    }
    assert(own@.take(i as int) =~= own@);
    proof {
        assert(g@.planets.len() == g.planets.len());
        lemma_regroup_sources(g@.planets, player, committed@, min, max as nat);
    }
    best_of(&items, max)
}

proof fn lemma_left(planets: Seq<Planet>, own: Seq<usize>, committed: Seq<i64>, min: i64)
    requires
        committed.len() == planets.len(),
        forall|i: int| 0 <= i < planets.len() ==> 0 <= #[trigger] committed[i] <= planets[i].ships,
        forall|k: int| 0 <= k < own.len() ==> (#[trigger] own[k]) < planets.len(),
    ensures
        forall|k: int|
            0 <= k < leftovers(planets, own, committed, min).len() ==> ({
                let x = #[trigger] leftovers(planets, own, committed, min)[k];
                &&& own.contains(x.idx)
                &&& x.key == planets[x.idx as int].ships - committed[x.idx as int]
                &&& x.key >= min
            }),
        forall|i: usize|
            #[trigger] own.contains(i) && planets[i as int].ships - committed[i as int] >= min ==> crate::ranking::listed(
                leftovers(planets, own, committed, min),
                i,
            ),
    decreases own.len(),
{
    if own.len() > 0 {
        let before = own.drop_last();
        let last = own.last();
        assert forall|k: int| 0 <= k < before.len() implies (#[trigger] before[k]) < planets.len() by {
            assert(own[k] < planets.len());
        }
        lemma_left(planets, before, committed, min);
        let front = leftovers(planets, before, committed, min);
        let all = leftovers(planets, own, committed, min);
        assert(own[own.len() - 1] == last);
        assert(0 <= committed[last as int] <= planets[last as int].ships);
        assert forall|k: int| 0 <= k < all.len() implies ({
            let x = #[trigger] all[k];
            &&& own.contains(x.idx)
            &&& x.key == planets[x.idx as int].ships - committed[x.idx as int]
            &&& x.key >= min
        }) by {
            if k < front.len() {
                assert(all[k] == front[k]);
                let m = choose|m: int| 0 <= m < before.len() && before[m] == front[k].idx;
                assert(own[m] == all[k].idx);
            }
        }
        assert forall|i: usize|
            #[trigger] own.contains(i) && planets[i as int].ships - committed[i as int] >= min implies crate::ranking::listed(
            all,
            i,
        ) by {
            let k = choose|k: int| 0 <= k < own.len() && own[k] == i;
            if k < before.len() {
                assert(before[k] == i);
                assert(before.contains(i));
                let m = choose|m: int| 0 <= m < front.len() && (#[trigger] front[m]).idx == i;
                assert(all[m].idx == i);
            } else {
                assert(all[front.len() as int].idx == i);
            }
        }
    }
}

/// Ships go out to regroup from planets of `player` that have at least `min` left
/// besides those committed. All of these are listed where there is room, and the one
/// with more left always stands before the one with less; of two with as many, the one
/// whose place comes first.
pub proof fn lemma_regroup_sources(planets: Seq<Planet>, player: i64, committed: Seq<i64>, min: i64, max: nat)
    requires
        planets.len() <= usize::MAX,
        committed.len() == planets.len(),
        forall|i: int| 0 <= i < planets.len() ==> 0 <= #[trigger] committed[i] <= planets[i].ships,
    ensures
        ({
            let r = crate::ranking::best(
                leftovers(planets, crate::planner::held(planets, player), committed, min),
                max,
            );
            &&& r.len() <= max
            &&& forall|k: int|
                0 <= k < r.len() ==> (#[trigger] r[k]) < planets.len() && planets[r[k] as int].owner == player
                    && planets[r[k] as int].ships - committed[r[k] as int] >= min
            &&& forall|i: int|
                0 <= i < planets.len() && (#[trigger] planets[i]).owner == player && planets[i].ships - committed[i]
                    >= min ==> r.len() == max || r.contains(i as usize)
            &&& forall|i: int, j: int|
                0 <= i < planets.len() && 0 <= j < planets.len() && (#[trigger] planets[i]).owner == player && (
                #[trigger] planets[j]).owner == player && planets[i].ships - committed[i] >= min && planets[j].ships
                    - committed[j] >= min && (planets[i].ships - committed[i] > planets[j].ships - committed[j] || (
                planets[i].ships - committed[i] == planets[j].ships - committed[j] && i < j)) ==> crate::ranking::leads(
                    r,
                    i as usize,
                    j as usize,
                )
        }),
{
    let own = crate::planner::held(planets, player);
    let items = leftovers(planets, own, committed, min);
    let r = crate::ranking::best(items, max);
    crate::planner::lemma_held(planets, player);
    crate::planner::lemma_held_all(planets, player);
    lemma_left(planets, own, committed, min);
    lemma_leftovers(planets, own, committed, min);
    crate::ranking::lemma_best(items, max);
    crate::ranking::lemma_best_all(items, max);
    assert forall|k: int| 0 <= k < r.len() implies (#[trigger] r[k]) < planets.len() && planets[r[k] as int].owner
        == player && planets[r[k] as int].ships - committed[r[k] as int] >= min by {
        assert(crate::ranking::listed(items, r[k]));
        let j = choose|j: int| 0 <= j < items.len() && (#[trigger] items[j]).idx == r[k];
        assert(own.contains(items[j].idx));
        let m = choose|m: int| 0 <= m < own.len() && own[m] == r[k];
        assert(own[m] < planets.len());
    }
    assert forall|i: int|
        0 <= i < planets.len() && (#[trigger] planets[i]).owner == player && planets[i].ships - committed[i]
            >= min implies r.len() == max || r.contains(i as usize) by {
        assert(own.contains(i as usize));
        assert(crate::ranking::listed(items, i as usize));
        let k = choose|k: int| 0 <= k < items.len() && (#[trigger] items[k]).idx == i as usize;
    }
    assert forall|i: int, j: int|
        0 <= i < planets.len() && 0 <= j < planets.len() && (#[trigger] planets[i]).owner == player && (
        #[trigger] planets[j]).owner == player && planets[i].ships - committed[i] >= min && planets[j].ships
            - committed[j] >= min && (planets[i].ships - committed[i] > planets[j].ships - committed[j] || (
        planets[i].ships - committed[i] == planets[j].ships - committed[j] && i < j)) implies crate::ranking::leads(
        r,
        i as usize,
        j as usize,
    ) by {
        assert(own.contains(i as usize) && own.contains(j as usize));
        assert(crate::ranking::listed(items, i as usize) && crate::ranking::listed(items, j as usize));
        let a = choose|a: int| 0 <= a < items.len() && (#[trigger] items[a]).idx == i as usize;
        let b = choose|b: int| 0 <= b < items.len() && (#[trigger] items[b]).idx == j as usize;
        crate::ranking::lemma_best_order(items, max, a, b);
    }
}

/// The planets of `own` that are no comets, with the pressure on them.
pub open spec fn pressed(g: GameModel, own: Seq<usize>, pressures: Seq<Double>) -> Seq<Ranked>
    decreases own.len(),
{
    if own.len() == 0 {
        Seq::empty()
    } else {
        let front = pressed(g, own.drop_last(), pressures);
        let at = own.last() as int;
        if g.comet_planet_ids.contains(g.planets[at].id) {
            front
        } else {
            front.push(Ranked { key: pressures[at].rank() as i128, idx: own.last() })
        }
    }
}

/// The `max` planets of `player` under the most pressure, comets left out.
pub fn regroup_destinations(g: &GameState, player: i64, pressures: &Vec<Double>, max: usize) -> (r: Vec<usize>)
    requires
        pressures@.len() == g@.planets.len(),
    ensures
        r@ == crate::ranking::best(pressed(g@, crate::planner::held(g@.planets, player), pressures@), max as nat),
        forall|k: int| 0 <= k < r@.len() ==> (#[trigger] r@[k]) < g@.planets.len(),
        r@.len() <= max,
        forall|k: int|
            0 <= k < r@.len() ==> g@.planets[(#[trigger] r@[k]) as int].owner == player
                && !g@.comet_planet_ids.contains(g@.planets[r@[k] as int].id),
        forall|i: int|
            0 <= i < g@.planets.len() && (#[trigger] g@.planets[i]).owner == player && !g@.comet_planet_ids.contains(
                g@.planets[i].id,
            ) ==> r@.len() == max || r@.contains(i as usize),
        forall|i: int, j: int|
            0 <= i < g@.planets.len() && 0 <= j < g@.planets.len() && is_home(g@, player, i) && is_home(g@, player, j)
                && #[trigger] pressures@[j].below(#[trigger] pressures@[i]) ==> crate::ranking::leads(
                r@,
                i as usize,
                j as usize,
            ),
{
    let own = owned(g, player);
    let mut items: Vec<Ranked> = Vec::new();
    let mut i: usize = 0;
    assert(own@.take(0) =~= Seq::<usize>::empty());
    while i < own.len()
        invariant
            i <= own@.len(),
            pressures@.len() == g@.planets.len(),
            forall|k: int| 0 <= k < own@.len() ==> (#[trigger] own@[k]) < g@.planets.len(),
            items@ == pressed(g@, own@.take(i as int), pressures@),
            forall|k: int| 0 <= k < items@.len() ==> (#[trigger] items@[k]).idx < g@.planets.len(),
        decreases own@.len() - i,
    {
        assert(own@.take(i + 1).drop_last() =~= own@.take(i as int));
        let at: usize = own[i];
        assert(own@[i as int] < g@.planets.len());
        if !has_id(&g.comet_planet_ids, g.planets[at].id) {
            let key: i64 = pressures[at].order();
            items.push(Ranked { key: key as i128, idx: at });
        }
        i += 1;
    }
    assert(own@.take(i as int) =~= own@);
    let r = best_of(&items, max);
    proof {
        assert(g@.planets.len() == g.planets.len());
        lemma_destinations(g@, player, pressures@, max as nat);
    }
    r
}

/// `player` holds planet `i`, and it is no comet.
pub open spec fn is_home(g: GameModel, player: i64, i: int) -> bool {
    g.planets[i].owner == player && !g.comet_planet_ids.contains(g.planets[i].id)
}

proof fn lemma_pressed(g: GameModel, own: Seq<usize>, pressures: Seq<Double>)
    requires
        forall|j: int, k: int| 0 <= j < k < own.len() ==> #[trigger] own[j] < #[trigger] own[k],
    ensures
        crate::ranking::apart(pressed(g, own, pressures)),
        forall|k: int|
            0 <= k < pressed(g, own, pressures).len() ==> ({
                let x = #[trigger] pressed(g, own, pressures)[k];
                &&& own.contains(x.idx)
                &&& !g.comet_planet_ids.contains(g.planets[x.idx as int].id)
                &&& x.key == pressures[x.idx as int].rank()
            }),
        forall|i: usize|
            #[trigger] own.contains(i) && !g.comet_planet_ids.contains(g.planets[i as int].id) ==> crate::ranking::listed(
                pressed(g, own, pressures),
                i,
            ),
    decreases own.len(),
{
    if own.len() > 0 {
        let before = own.drop_last();
        let last = own.last();
        assert forall|j: int, k: int| 0 <= j < k < before.len() implies #[trigger] before[j] < #[trigger] before[k] by {
            assert(own[j] < own[k]);
        }
        lemma_pressed(g, before, pressures);
        let front = pressed(g, before, pressures);
        let all = pressed(g, own, pressures);
        assert(own[own.len() - 1] == last);
        assert forall|k: int| 0 <= k < all.len() implies ({
            let x = #[trigger] all[k];
            &&& own.contains(x.idx)
            &&& !g.comet_planet_ids.contains(g.planets[x.idx as int].id)
            &&& x.key == pressures[x.idx as int].rank()
        }) by {
            if k < front.len() {
                assert(all[k] == front[k]);
                let m = choose|m: int| 0 <= m < before.len() && before[m] == front[k].idx;
                assert(own[m] == all[k].idx);
            }
        }
        assert forall|i: int, j: int| 0 <= i < j < all.len() implies (#[trigger] all[i]).idx != (
        #[trigger] all[j]).idx by {
            assert(all[i] == front[i]);
            if j < front.len() {
                assert(all[j] == front[j]);
            } else {
                let m = choose|m: int| 0 <= m < before.len() && before[m] == front[i].idx;
                assert(own[m] < own[own.len() - 1]);
            }
        }
        assert forall|i: usize|
            #[trigger] own.contains(i) && !g.comet_planet_ids.contains(g.planets[i as int].id) implies crate::ranking::listed(
            all,
            i,
        ) by {
            let k = choose|k: int| 0 <= k < own.len() && own[k] == i;
            if k < before.len() {
                assert(before[k] == i);
                assert(before.contains(i));
                let m = choose|m: int| 0 <= m < front.len() && (#[trigger] front[m]).idx == i;
                assert(all[m].idx == i);
            } else {
                assert(all[front.len() as int].idx == i);
            }
        }
    }
}

/// Ships go to planets of `player` that are no comets. All of these are listed where
/// there is room, and the one under more pressure always stands before the one under
/// less; of two under the same pressure, the one whose place comes first.
pub proof fn lemma_destinations(g: GameModel, player: i64, pressures: Seq<Double>, max: nat)
    requires
        g.planets.len() <= usize::MAX,
    ensures
        ({
            let r = crate::ranking::best(pressed(g, crate::planner::held(g.planets, player), pressures), max);
            &&& r.len() <= max
            &&& forall|k: int|
                0 <= k < r.len() ==> (#[trigger] r[k]) < g.planets.len() && g.planets[r[k] as int].owner == player
                    && !g.comet_planet_ids.contains(g.planets[r[k] as int].id)
            &&& forall|i: int|
                0 <= i < g.planets.len() && (#[trigger] g.planets[i]).owner == player && !g.comet_planet_ids.contains(
                    g.planets[i].id,
                ) ==> r.len() == max || r.contains(i as usize)
            &&& forall|i: int, j: int|
                0 <= i < g.planets.len() && 0 <= j < g.planets.len() && is_home(g, player, i) && is_home(g, player, j)
                    && #[trigger] pressures[j].below(#[trigger] pressures[i]) ==> crate::ranking::leads(
                    r,
                    i as usize,
                    j as usize,
                )
            &&& forall|i: int, j: int|
                0 <= i < j < g.planets.len() && #[trigger] is_home(g, player, i) && #[trigger] is_home(g, player, j)
                    && pressures[i] == pressures[j] ==> crate::ranking::leads(r, i as usize, j as usize)
        }),
{
    let own = crate::planner::held(g.planets, player);
    let items = pressed(g, own, pressures);
    let r = crate::ranking::best(items, max);
    crate::planner::lemma_held(g.planets, player);
    crate::planner::lemma_held_all(g.planets, player);
    lemma_pressed(g, own, pressures);
    crate::ranking::lemma_best(items, max);
    crate::ranking::lemma_best_all(items, max);
    assert forall|k: int| 0 <= k < r.len() implies (#[trigger] r[k]) < g.planets.len() && g.planets[r[k] as int].owner
        == player && !g.comet_planet_ids.contains(g.planets[r[k] as int].id) by {
        assert(crate::ranking::listed(items, r[k]));
        let j = choose|j: int| 0 <= j < items.len() && (#[trigger] items[j]).idx == r[k];
        assert(own.contains(items[j].idx));
        let m = choose|m: int| 0 <= m < own.len() && own[m] == r[k];
        assert(own[m] < g.planets.len());
    }
    assert forall|i: int|
        0 <= i < g.planets.len() && (#[trigger] g.planets[i]).owner == player && !g.comet_planet_ids.contains(
            g.planets[i].id,
        ) implies r.len() == max || r.contains(i as usize) by {
        assert(own.contains(i as usize));
        assert(crate::ranking::listed(items, i as usize));
        let k = choose|k: int| 0 <= k < items.len() && (#[trigger] items[k]).idx == i as usize;
    }
    assert forall|i: int, j: int|
        0 <= i < g.planets.len() && 0 <= j < g.planets.len() && #[trigger] is_home(g, player, i) && #[trigger] is_home(
            g,
            player,
            j,
        ) && (pressures[j].below(pressures[i]) || (pressures[i] == pressures[j] && i < j)) implies crate::ranking::leads(
        r,
        i as usize,
        j as usize,
    ) by {
        assert(g.planets[i].owner == player && g.planets[j].owner == player);
        assert(own.contains(i as usize) && own.contains(j as usize));
        assert(crate::ranking::listed(items, i as usize) && crate::ranking::listed(items, j as usize));
        let a = choose|a: int| 0 <= a < items.len() && (#[trigger] items[a]).idx == i as usize;
        let b = choose|b: int| 0 <= b < items.len() && (#[trigger] items[b]).idx == j as usize;
        crate::ranking::lemma_best_order(items, max, a, b);
    }
}

/// The ships that planet `i` can send to regroup: what it has left, but no more
/// than it can safely spare besides those committed.
pub open spec fn regroup_ships(g: GameModel, status: GarrisonStatus, i: int, player: i64, committed: Seq<i64>) -> int {
    let left = g.planets[i].ships - committed[i];
    let safe = crate::planner::spare(status, i, player) - committed[i];
    if safe < 0 {
        0
    } else if safe < left {
        safe
    } else {
        left
    }
}

/// What is sent to regroup comes out of what the planet can safely spare.
pub proof fn lemma_regroup_ships(g: GameModel, status: GarrisonStatus, i: int, player: i64, committed: Seq<i64>)
    requires
        0 <= committed[i] <= g.planets[i].ships,
    ensures
        0 <= regroup_ships(g, status, i, player, committed) <= g.planets[i].ships - committed[i],
        committed[i] <= crate::planner::spare(status, i, player) ==> committed[i]
            + regroup_ships(g, status, i, player, committed) <= crate::planner::spare(status, i, player),
        committed[i] > crate::planner::spare(status, i, player) ==> regroup_ships(g, status, i, player, committed) == 0,
{
}

/// The moves between own planets to aim: from each source that can send at
/// least `min` ships, at each destination.
pub open spec fn regroupings(
    g: GameModel,
    status: GarrisonStatus,
    srcs: Seq<usize>,
    dsts: Seq<usize>,
    player: i64,
    committed: Seq<i64>,
    min: i64,
) -> Seq<Request>
    decreases srcs.len(),
{
    if srcs.len() == 0 {
        Seq::empty()
    } else {
        let front = regroupings(g, status, srcs.drop_last(), dsts, player, committed, min);
        let n = regroup_ships(g, status, srcs.last() as int, player, committed);
        if n < min {
            front
        } else {
            front + crate::planner::requests_from(srcs.last(), n as i64, dsts)
        }
    }
}

/// The moves to aim go from planets of `player`, with ships that are there besides
/// those committed.
pub proof fn lemma_regroupings(
    g: GameModel,
    status: GarrisonStatus,
    srcs: Seq<usize>,
    dsts: Seq<usize>,
    player: i64,
    committed: Seq<i64>,
    min: i64,
)
    requires
        crate::garrison::describes(status, g),
        forall|i: int| 0 <= i < g.planets.len() ==> 0 <= #[trigger] committed[i] <= g.planets[i].ships,
        forall|k: int|
            0 <= k < srcs.len() ==> (#[trigger] srcs[k]) < g.planets.len() && g.planets[srcs[k] as int].owner == player,
        forall|k: int| 0 <= k < dsts.len() ==> (#[trigger] dsts[k]) < g.planets.len(),
    ensures
        forall|k: int|
            0 <= k < regroupings(g, status, srcs, dsts, player, committed, min).len() ==> #[trigger] affords(
                g,
                player,
                committed,
                min,
                regroupings(g, status, srcs, dsts, player, committed, min)[k],
            ),
    decreases srcs.len(),
{
    if srcs.len() > 0 {
        let before = srcs.drop_last();
        assert forall|k: int| 0 <= k < before.len() implies (#[trigger] before[k]) < g.planets.len()
            && g.planets[before[k] as int].owner == player by {
            assert(before[k] == srcs[k]);
        }
        lemma_regroupings(g, status, before, dsts, player, committed, min);
        let src = srcs.last();
        assert(srcs[srcs.len() - 1] < g.planets.len());
        assert(0 <= committed[src as int] <= g.planets[src as int].ships);
        lemma_regroup_ships(g, status, src as int, player, committed);
        let n = regroup_ships(g, status, src as int, player, committed) as i64;
        crate::planner::lemma_requests_from(src, n, dsts);
        let front = regroupings(g, status, before, dsts, player, committed, min);
        let more = crate::planner::requests_from(src, n, dsts);
        let all = regroupings(g, status, srcs, dsts, player, committed, min);
        assert forall|k: int| 0 <= k < all.len() implies #[trigger] affords(g, player, committed, min, all[k]) by {
            if k < front.len() {
                assert(affords(g, player, committed, min, front[k]));
            } else {
                assert(all[k] == more[k - front.len()]);
            }
        }
    }
}

/// The move is proper, sends at least `min` ships, and leaves those committed.
pub open spec fn affords(g: GameModel, player: i64, committed: Seq<i64>, min: i64, r: Request) -> bool {
    &&& crate::planner::proper(g, player, r)
    &&& r.ships >= min
    &&& committed[r.src as int] + r.ships <= g.planets[r.src as int].ships
}

/// Of planets in the order of their places, each is left over at most once.
pub proof fn lemma_leftovers(planets: Seq<Planet>, own: Seq<usize>, committed: Seq<i64>, min: i64)
    requires
        forall|j: int, k: int| 0 <= j < k < own.len() ==> #[trigger] own[j] < #[trigger] own[k],
    ensures
        crate::ranking::apart(leftovers(planets, own, committed, min)),
        forall|k: int|
            0 <= k < leftovers(planets, own, committed, min).len() ==> own.contains(
                (#[trigger] leftovers(planets, own, committed, min)[k]).idx,
            ),
    decreases own.len(),
{
    if own.len() > 0 {
        let before = own.drop_last();
        assert forall|j: int, k: int| 0 <= j < k < before.len() implies #[trigger] before[j] < #[trigger] before[k] by {
            assert(before[j] == own[j] && before[k] == own[k]);
        }
        lemma_leftovers(planets, before, committed, min);
        let front = leftovers(planets, before, committed, min);
        let all = leftovers(planets, own, committed, min);
        assert forall|k: int| 0 <= k < front.len() implies (#[trigger] front[k]).idx < own.last() && own.contains(
            front[k].idx,
        ) by {
            let j = choose|j: int| 0 <= j < before.len() && before[j] == front[k].idx;
            assert(own[j] < own[own.len() - 1]);
        }
        assert forall|k: int| 0 <= k < all.len() implies own.contains((#[trigger] all[k]).idx) by {
            if k < front.len() {
                assert(all[k] == front[k]);
            } else {
                assert(own[own.len() - 1] == all[k].idx);
            }
        }
        assert forall|i: int, j: int| 0 <= i < j < all.len() implies (#[trigger] all[i]).idx != (
        #[trigger] all[j]).idx by {
            assert(all[i] == front[i]);
            if j < front.len() {
                assert(all[j] == front[j]);
            }
        }
    }
}

/// Lists the moves between own planets to aim, source by source.
pub fn regroup_requests(
    g: &GameState,
    status: &GarrisonStatus,
    srcs: &Vec<usize>,
    dsts: &Vec<usize>,
    player: i64,
    committed: &Vec<i64>,
    min: i64,
) -> (r: Vec<Request>)
    requires
        crate::garrison::describes(*status, g@),
        0 <= player,
        player <= usize::MAX,
        committed@.len() == g@.planets.len(),
        forall|i: int| 0 <= i < g@.planets.len() ==> 0 <= #[trigger] committed@[i] <= g@.planets[i].ships,
        forall|k: int|
            0 <= k < srcs@.len() ==> (#[trigger] srcs@[k]) < g@.planets.len() && g@.planets[srcs@[k] as int].owner
                == player,
        forall|k: int| 0 <= k < dsts@.len() ==> (#[trigger] dsts@[k]) < g@.planets.len(),
    ensures
        r@ == regroupings(g@, *status, srcs@, dsts@, player, committed@, min),
        forall|k: int| 0 <= k < r@.len() ==> #[trigger] affords(g@, player, committed@, min, r@[k]),
        forall|x: Request|
            #[trigger] r@.contains(x) <==> srcs@.contains(x.src) && dsts@.contains(x.tgt) && x.src != x.tgt && x.ships
                >= min && sends_most(g@, *status, x, player, committed@),
{
    let mut r: Vec<Request> = Vec::new();
    let mut i: usize = 0;
    assert(srcs@.take(0) =~= Seq::<usize>::empty());
    while i < srcs.len()
        invariant
            i <= srcs@.len(),
            crate::garrison::describes(*status, g@),
            0 <= player,
            player <= usize::MAX,
            committed@.len() == g@.planets.len(),
            forall|k: int| 0 <= k < g@.planets.len() ==> 0 <= #[trigger] committed@[k] <= g@.planets[k].ships,
            forall|k: int|
                0 <= k < srcs@.len() ==> (#[trigger] srcs@[k]) < g@.planets.len() && g@.planets[srcs@[k] as int].owner
                    == player,
            forall|k: int| 0 <= k < dsts@.len() ==> (#[trigger] dsts@[k]) < g@.planets.len(),
            r@ == regroupings(g@, *status, srcs@.take(i as int), dsts@, player, committed@, min),
        decreases srcs@.len() - i,
    {
        assert(srcs@.take(i + 1).drop_last() =~= srcs@.take(i as int));
        let src: usize = srcs[i];
        assert(srcs@[i as int] < status.p);
        assert(status.planets@[src as int].forecast().init.ships == g@.planets[src as int].ships);
        assert(0 <= committed@[src as int] <= g@.planets[src as int].ships);
        let left: i64 = g.planets[src].ships - committed[src];
        let safe: i64 = safe_drain_planet(status, src, player as usize, status.h) - committed[src];
        let ships: i64 = if safe < 0 {
            0
        } else if safe < left {
            safe
        } else {
            left
        };
        if ships >= min {
            let ghost start = r@;
            let mut k: usize = 0;
            assert(dsts@.take(0) =~= Seq::<usize>::empty());
            assert(start + crate::planner::requests_from(src, ships, dsts@.take(0)) =~= start);
            while k < dsts.len()
                invariant
                    k <= dsts@.len(),
                    r@ == start + crate::planner::requests_from(src, ships, dsts@.take(k as int)),
                decreases dsts@.len() - k,
            {
                assert(dsts@.take(k + 1).drop_last() =~= dsts@.take(k as int));
                let tgt: usize = dsts[k];
                if tgt != src {
                    r.push(Request { src, tgt, ships });
                }
                k += 1;
                assert(r@ =~= start + crate::planner::requests_from(src, ships, dsts@.take(k as int)));
            }
            assert(dsts@.take(k as int) =~= dsts@);
        }
        i += 1;
    }
    assert(srcs@.take(i as int) =~= srcs@);
    proof {
        lemma_regroupings(g@, *status, srcs@, dsts@, player, committed@, min);
        lemma_regroupings_all(g@, *status, srcs@, dsts@, player, committed@, min);
    }
    r
}

/// The move sends what the planet has left besides the ships committed, as far as it
/// can safely spare it with them: no more, and none where it cannot; and no fewer.
pub open spec fn sends_most(g: GameModel, status: GarrisonStatus, x: Request, player: i64, committed: Seq<i64>) -> bool {
    let gone = committed[x.src as int] + x.ships;
    &&& x.ships >= 0
    &&& gone <= g.planets[x.src as int].ships
    &&& x.ships == 0 || gone <= crate::planner::spare(status, x.src as int, player)
    &&& gone == g.planets[x.src as int].ships || gone >= crate::planner::spare(status, x.src as int, player)
}

/// A move is aimed just where it goes from one of the sources to another planet among
/// the destinations, and sends the most that it can, which is `min` ships or more.
pub proof fn lemma_regroupings_all(
    g: GameModel,
    status: GarrisonStatus,
    srcs: Seq<usize>,
    dsts: Seq<usize>,
    player: i64,
    committed: Seq<i64>,
    min: i64,
)
    requires
        committed.len() == g.planets.len(),
        forall|i: int| 0 <= i < g.planets.len() ==> 0 <= #[trigger] committed[i] <= g.planets[i].ships,
        forall|k: int| 0 <= k < srcs.len() ==> (#[trigger] srcs[k]) < g.planets.len(),
    ensures
        forall|x: Request|
            #[trigger] regroupings(g, status, srcs, dsts, player, committed, min).contains(x) <==> srcs.contains(x.src)
                && dsts.contains(x.tgt) && x.src != x.tgt && x.ships >= min && sends_most(
                g,
                status,
                x,
                player,
                committed,
            ),
    decreases srcs.len(),
{
    let all = regroupings(g, status, srcs, dsts, player, committed, min);
    if srcs.len() > 0 {
        let before = srcs.drop_last();
        let last = srcs.last();
        assert forall|k: int| 0 <= k < before.len() implies (#[trigger] before[k]) < g.planets.len() by {
            assert(srcs[k] < g.planets.len());
        }
        lemma_regroupings_all(g, status, before, dsts, player, committed, min);
        assert(srcs[srcs.len() - 1] < g.planets.len());
        assert(0 <= committed[last as int] <= g.planets[last as int].ships);
        let front = regroupings(g, status, before, dsts, player, committed, min);
        let n = regroup_ships(g, status, last as int, player, committed);
        let more = crate::planner::requests_from(last, n as i64, dsts);
        crate::planner::lemma_each_target(last, n as i64, dsts);
        assert forall|i: usize| srcs.contains(i) == (before.contains(i) || i == last) by {
            if srcs.contains(i) {
                let k = choose|k: int| 0 <= k < srcs.len() && srcs[k] == i;
                if k < before.len() {
                    assert(before[k] == i);
                }
            }
            if before.contains(i) {
                let k = choose|k: int| 0 <= k < before.len() && before[k] == i;
                assert(srcs[k] == i);
            }
            assert(srcs[srcs.len() - 1] == last);
        }
        assert forall|x: Request|
            #[trigger] all.contains(x) <==> srcs.contains(x.src) && dsts.contains(x.tgt) && x.src != x.tgt && x.ships
                >= min && sends_most(g, status, x, player, committed) by {
            assert(front.contains(x) <==> before.contains(x.src) && dsts.contains(x.tgt) && x.src != x.tgt && x.ships
                >= min && sends_most(g, status, x, player, committed));
            assert(more.contains(x) <==> x.src == last && x.ships == n as i64 && x.tgt != last && dsts.contains(x.tgt));
            if x.src == last {
                assert(sends_most(g, status, x, player, committed) <==> x.ships == n);
            }
            if front.contains(x) {
                let k = choose|k: int| 0 <= k < front.len() && front[k] == x;
                assert(all[k] == x);
            }
            if n >= min && more.contains(x) {
                let k = choose|k: int| 0 <= k < more.len() && more[k] == x;
                assert(all[front.len() + k] == x);
            }
            if all.contains(x) {
                let k = choose|k: int| 0 <= k < all.len() && all[k] == x;
                if k < front.len() {
                    assert(front[k] == x);
                } else {
                    assert(more[k - front.len()] == x);
                }
            }
        }
    }
}

/// A move between own planets that can be made.
#[derive(Clone, Copy, PartialEq, Eq, Structural, Debug)]
pub struct RegroupOption {
    pub src_idx: usize,
    pub tgt_idx: usize,
    pub ships: i64,
    pub eta: usize,
    pub gap: Double,
    pub angle: Double,
}

/// The move as an option, if the pressure at its destination exceeds that at its
/// source by more than `delta_min`, if its shot reaches the destination within
/// `max_time` steps, and if the player holds the destination then.
pub open spec fn option(
    status: GarrisonStatus,
    r: Request,
    gap: Double,
    shot: Shot,
    player: i64,
    delta_min: Double,
    max_time: Double,
) -> Option<RegroupOption> {
    match crate::planner::hits(shot, r.tgt) {
        Some(eta) => if !gap.at_most(delta_min) && !max_time.below_whole(eta) && status.planets@[r.tgt as int].forecast().after(
            eta as nat,
        ).owner == player {
            Some(
                RegroupOption {
                    src_idx: r.src,
                    tgt_idx: r.tgt,
                    ships: r.ships,
                    eta: eta as usize,
                    gap,
                    angle: shot.angle,
                },
            )
        } else {
            None
        },
        None => None,
    }
}

/// The options among the first `n` moves.
pub open spec fn options(
    status: GarrisonStatus,
    requests: Seq<Request>,
    gaps: Seq<Double>,
    shots: Seq<Shot>,
    player: i64,
    delta_min: Double,
    max_time: Double,
    n: nat,
) -> Seq<RegroupOption>
    decreases n,
{
    if n == 0 {
        Seq::empty()
    } else {
        let front = options(status, requests, gaps, shots, player, delta_min, max_time, (n - 1) as nat);
        match option(status, requests[n - 1], gaps[n - 1], shots[n - 1], player, delta_min, max_time) {
            Some(o) => front.push(o),
            None => front,
        }
    }
}

/// Works out which of the aimed moves between own planets can be made. `gaps[k]`
/// is the pressure at the destination of move `k` less that at its source.
pub fn regroup_options(
    status: &GarrisonStatus,
    requests: &Vec<Request>,
    gaps: &Vec<Double>,
    shots: &Vec<Shot>,
    player: i64,
    delta_min: Double,
    max_time: Double,
) -> (r: Vec<RegroupOption>)
    requires
        status.valid(),
        gaps@.len() == requests@.len(),
        shots@.len() == requests@.len(),
        crate::planner::in_time(shots@, status.h as nat),
        forall|k: int| 0 <= k < requests@.len() ==> (#[trigger] requests@[k]).tgt < status.p,
    ensures
        r@ == options(*status, requests@, gaps@, shots@, player, delta_min, max_time, requests@.len()),
{
    let mut r: Vec<RegroupOption> = Vec::new();
    let mut i: usize = 0;
    while i < requests.len()
        invariant
            i <= requests@.len(),
            status.valid(),
            gaps@.len() == requests@.len(),
            shots@.len() == requests@.len(),
            crate::planner::in_time(shots@, status.h as nat),
            forall|k: int| 0 <= k < requests@.len() ==> (#[trigger] requests@[k]).tgt < status.p,
            r@ == options(*status, requests@, gaps@, shots@, player, delta_min, max_time, i as nat),
        decreases requests@.len() - i,
    {
        let q = requests[i];
        let shot = &shots[i];
        assert(requests@[i as int].tgt < status.p);
        assert(shots@[i as int].legs@.len() <= status.h);
        if let Some((hit, eta)) = fleet_eta(&shot.legs) {
            if hit == q.tgt {
                let pr = &status.planets[q.tgt];
                proof {
                    assert(crate::planner::hits(*shot, q.tgt) == Some(eta as int));
                    assert(pr.valid(status.h as int, status.a as nat));
                    assert(pr.course.owner@[eta as int] == pr.forecast().after(eta as nat).owner);
                }
                if !gaps[i].le(delta_min) && !max_time.lt_whole(eta as i128) && pr.course.owner[eta]
                    == player {
                    r.push(
                        RegroupOption {
                            src_idx: q.src,
                            tgt_idx: q.tgt,
                            ships: q.ships,
                            eta,
                            gap: gaps[i],
                            angle: shot.angle,
                        },
                    );
                }
            }
        }
        i += 1;
    }
    r
}

/// `o` is the move `r` with its shot: the pressure at the destination exceeds that at
/// the source by more than `delta_min`; the shot gets there before anything else, at
/// step `o.eta`, which is no later than `max_time`; and the player holds the
/// destination then.
pub open spec fn stands_for(
    status: GarrisonStatus,
    o: RegroupOption,
    r: Request,
    gap: Double,
    shot: Shot,
    player: i64,
    delta_min: Double,
    max_time: Double,
) -> bool {
    &&& o.src_idx == r.src && o.tgt_idx == r.tgt && o.ships == r.ships && o.angle == shot.angle && o.gap == gap
    &&& crate::garrison::arrives_at(shot.legs@, r.tgt as int, o.eta as int)
    &&& !gap.at_most(delta_min)
    &&& !max_time.below_whole(o.eta as int)
    &&& status.planets@[r.tgt as int].course.owner@[o.eta as int] == player
}

proof fn lemma_option(
    status: GarrisonStatus,
    r: Request,
    gap: Double,
    shot: Shot,
    player: i64,
    delta_min: Double,
    max_time: Double,
)
    requires
        status.valid(),
        shot.legs@.len() <= status.h,
        r.tgt < status.p,
    ensures
        match option(status, r, gap, shot, player, delta_min, max_time) {
            Some(o) => stands_for(status, o, r, gap, shot, player, delta_min, max_time),
            None => forall|o: RegroupOption|
                !#[trigger] stands_for(status, o, r, gap, shot, player, delta_min, max_time),
        },
{
    let pr = status.planets@[r.tgt as int];
    crate::garrison::lemma_voyage(shot.legs@, shot.legs@.len());
    crate::garrison::lemma_voyage_step(shot.legs@, shot.legs@.len());
    assert(pr.valid(status.h as int, status.a as nat));
    assert forall|k: int| 0 <= k <= status.h implies #[trigger] pr.course.owner@[k] == pr.forecast().after(k as nat).owner by {}
}

/// `o` stands for one of the first `n` moves.
pub open spec fn comes_from_one(
    status: GarrisonStatus,
    o: RegroupOption,
    requests: Seq<Request>,
    gaps: Seq<Double>,
    shots: Seq<Shot>,
    player: i64,
    delta_min: Double,
    max_time: Double,
    n: nat,
) -> bool {
    exists|k: int|
        0 <= k < n && #[trigger] stands_for(status, o, requests[k], gaps[k], shots[k], player, delta_min, max_time)
}

/// Every move that can be made is an option, and no other.
pub proof fn lemma_options_all(
    status: GarrisonStatus,
    requests: Seq<Request>,
    gaps: Seq<Double>,
    shots: Seq<Shot>,
    player: i64,
    delta_min: Double,
    max_time: Double,
    n: nat,
)
    requires
        status.valid(),
        n <= requests.len(),
        gaps.len() == requests.len(),
        shots.len() == requests.len(),
        crate::planner::in_time(shots, status.h as nat),
        forall|k: int| 0 <= k < requests.len() ==> (#[trigger] requests[k]).tgt < status.p,
    ensures
        ({
            let all = options(status, requests, gaps, shots, player, delta_min, max_time, n);
            &&& forall|q: int|
                0 <= q < all.len() ==> comes_from_one(
                    status,
                    #[trigger] all[q],
                    requests,
                    gaps,
                    shots,
                    player,
                    delta_min,
                    max_time,
                    n,
                )
            &&& forall|k: int, o: RegroupOption|
                0 <= k < n && #[trigger] stands_for(
                    status,
                    o,
                    requests[k],
                    gaps[k],
                    shots[k],
                    player,
                    delta_min,
                    max_time,
                ) ==> all.contains(o)
        }),
    decreases n,
{
    let all = options(status, requests, gaps, shots, player, delta_min, max_time, n);
    if n > 0 {
        let front = options(status, requests, gaps, shots, player, delta_min, max_time, (n - 1) as nat);
        lemma_options_all(status, requests, gaps, shots, player, delta_min, max_time, (n - 1) as nat);
        assert(requests[n - 1].tgt < status.p);
        assert(shots[n - 1].legs@.len() <= status.h);
        lemma_option(status, requests[n - 1], gaps[n - 1], shots[n - 1], player, delta_min, max_time);
        assert forall|q: int| 0 <= q < all.len() implies comes_from_one(
            status,
            #[trigger] all[q],
            requests,
            gaps,
            shots,
            player,
            delta_min,
            max_time,
            n,
        ) by {
            if q < front.len() {
                assert(all[q] == front[q]);
                let k = choose|k: int|
                    0 <= k < n - 1 && #[trigger] stands_for(
                        status,
                        front[q],
                        requests[k],
                        gaps[k],
                        shots[k],
                        player,
                        delta_min,
                        max_time,
                    );
                assert(stands_for(status, all[q], requests[k], gaps[k], shots[k], player, delta_min, max_time));
            } else {
                assert(stands_for(
                    status,
                    all[q],
                    requests[n - 1],
                    gaps[n - 1],
                    shots[n - 1],
                    player,
                    delta_min,
                    max_time,
                ));
            }
        }
        assert forall|k: int, o: RegroupOption|
            0 <= k < n && #[trigger] stands_for(
                status,
                o,
                requests[k],
                gaps[k],
                shots[k],
                player,
                delta_min,
                max_time,
            ) implies all.contains(o) by {
            if k < n - 1 {
                let q = choose|q: int| 0 <= q < front.len() && front[q] == o;
                assert(all[q] == o);
            } else {
                let d = option(status, requests[n - 1], gaps[n - 1], shots[n - 1], player, delta_min, max_time)->0;
                lemma_same_arrival(shots[n - 1].legs@, o.tgt_idx as int, o.eta as int, d.eta as int);
                assert(o == d);
                assert(all[front.len() as int] == d);
            }
        }
    }
}

proof fn lemma_same_arrival(legs: Seq<crate::tick::FleetMove>, j: int, k: int, m: int)
    requires
        crate::garrison::arrives_at(legs, j, k),
        crate::garrison::arrives_at(legs, j, m),
    ensures
        k == m,
{
    if k < m {
        assert(crate::garrison::flies_on(legs[k - 1]));
    } else if m < k {
        assert(crate::garrison::flies_on(legs[m - 1]));
    }
}

/// The first of the first `n` options from planet `src` that no other of them
/// beats.
pub open spec fn best_option(options: Seq<RegroupOption>, scores: Seq<Double>, src: usize, n: nat) -> Option<int>
    decreases n,
{
    if n == 0 {
        None
    } else {
        let front = best_option(options, scores, src, (n - 1) as nat);
        if options[n - 1].src_idx != src {
            front
        } else {
            match front {
                Some(k) => if scores[k].below(scores[n - 1]) {
                    Some(n - 1)
                } else {
                    Some(k)
                },
                None => Some(n - 1),
            }
        }
    }
}

/// The order of each source that has an option: the best one.
pub open spec fn regroup_orders(
    g: GameModel,
    srcs: Seq<usize>,
    options: Seq<RegroupOption>,
    scores: Seq<Double>,
) -> Seq<Move>
    decreases srcs.len(),
{
    if srcs.len() == 0 {
        Seq::empty()
    } else {
        let front = regroup_orders(g, srcs.drop_last(), options, scores);
        match best_option(options, scores, srcs.last(), options.len()) {
            Some(k) => front.push(
                Move {
                    from_id: g.planets[srcs.last() as int].id,
                    angle: options[k].angle,
                    ships: options[k].ships,
                },
            ),
            None => front,
        }
    }
}

fn find_best(options: &Vec<RegroupOption>, scores: &Vec<Double>, src: usize) -> (r: Option<usize>)
    requires
        scores@.len() == options@.len(),
    ensures
        match r {
            Some(k) => k < options@.len() && best_option(options@, scores@, src, options@.len()) == Some(k as int),
            None => best_option(options@, scores@, src, options@.len()) is None,
        },
{
    let mut best: Option<usize> = None;
    let mut n: usize = 0;
    while n < options.len()
        invariant
            n <= options@.len(),
            scores@.len() == options@.len(),
            match best {
                Some(k) => k < n && best_option(options@, scores@, src, n as nat) == Some(k as int),
                None => best_option(options@, scores@, src, n as nat) is None,
            },
        decreases options@.len() - n,
    {
        if options[n].src_idx == src {
            best = match best {
                Some(k) => if scores[k].lt(scores[n]) {
                    Some(n)
                } else {
                    Some(k)
                },
                None => Some(n),
            };
        }
        n += 1;
    }
    best
}

/// Picks for each source the option with the greatest score, and gives the
/// orders.
pub fn regroup_moves(
    g: &GameState,
    srcs: &Vec<usize>,
    options: &Vec<RegroupOption>,
    scores: &Vec<Double>,
) -> (r: Vec<Move>)
    requires
        scores@.len() == options@.len(),
        forall|k: int| 0 <= k < srcs@.len() ==> (#[trigger] srcs@[k]) < g@.planets.len(),
    ensures
        r@ == regroup_orders(g@, srcs@, options@, scores@),
{
    let mut r: Vec<Move> = Vec::new();
    let mut i: usize = 0;
    assert(srcs@.take(0) =~= Seq::<usize>::empty());
    while i < srcs.len()
        invariant
            i <= srcs@.len(),
            scores@.len() == options@.len(),
            forall|k: int| 0 <= k < srcs@.len() ==> (#[trigger] srcs@[k]) < g@.planets.len(),
            r@ == regroup_orders(g@, srcs@.take(i as int), options@, scores@),
        decreases srcs@.len() - i,
    {
        assert(srcs@.take(i + 1).drop_last() =~= srcs@.take(i as int));
        let src: usize = srcs[i];
        assert(srcs@[i as int] < g@.planets.len());
        match find_best(options, scores, src) {
            Some(k) => {
                let from_id: i64 = g.planets[src].id;
                r.push(Move { from_id, angle: options[k].angle, ships: options[k].ships });
            },
            None => {},
        }
        i += 1;
    }
    assert(srcs@.take(i as int) =~= srcs@);
    r
}

/// No planet is among `srcs` twice.
pub open spec fn once_each(srcs: Seq<usize>) -> bool {
    forall|i: int, j: int| 0 <= i < j < srcs.len() ==> #[trigger] srcs[i] != #[trigger] srcs[j]
}

/// The orders to regroup go from planets of `player`, send at least `min` ships,
/// and leave those committed.
pub proof fn lemma_regroup_asks(
    g: GameModel,
    player: i64,
    committed: Seq<i64>,
    min: i64,
    requests: Seq<Request>,
    srcs: Seq<usize>,
    options: Seq<RegroupOption>,
    scores: Seq<Double>,
)
    requires
        crate::game::distinct(g.planets),
        g.planets.len() <= usize::MAX,
        once_each(srcs),
        forall|k: int| 0 <= k < srcs.len() ==> (#[trigger] srcs[k]) < g.planets.len(),
        forall|k: int| 0 <= k < requests.len() ==> #[trigger] affords(g, player, committed, min, requests[k]),
        forall|k: int| 0 <= k < options.len() ==> #[trigger] asked_for(requests, options[k]),
    ensures
        ({
            let orders = regroup_orders(g, srcs, options, scores);
            &&& forall|k: int|
                0 <= k < orders.len() ==> (#[trigger] orders[k]).ships >= min && orders[k].ships >= 0
                    && crate::game::held_by(g.planets, player, orders[k].from_id)
            &&& forall|i: int|
                0 <= i < g.planets.len() ==> {
                    let n = crate::game::asked(orders, (#[trigger] g.planets[i]).id);
                    n == 0 || (srcs.contains(i as usize) && 0 <= n <= g.planets[i].ships - committed[i])
                }
        }),
    decreases srcs.len(),
{
    let orders = regroup_orders(g, srcs, options, scores);
    if srcs.len() > 0 {
        let before = srcs.drop_last();
        let src = srcs.last();
        assert forall|i: int, j: int| 0 <= i < j < before.len() implies #[trigger] before[i] != #[trigger] before[j] by {
            assert(before[i] == srcs[i] && before[j] == srcs[j]);
        }
        assert forall|k: int| 0 <= k < before.len() implies (#[trigger] before[k]) < g.planets.len() by {
            assert(before[k] == srcs[k]);
        }
        lemma_regroup_asks(g, player, committed, min, requests, before, options, scores);
        lemma_best_option(options, scores, src, options.len());
        let front = regroup_orders(g, before, options, scores);
        assert(srcs[srcs.len() - 1] < g.planets.len());
        assert(srcs.contains(src));
        assert(!before.contains(src)) by {
            if before.contains(src) {
                let k = choose|k: int| 0 <= k < before.len() && before[k] == src;
                assert(srcs[k] != srcs[srcs.len() - 1]);
            }
        }
        assert forall|x: usize| x != src implies srcs.contains(x) == before.contains(x) by {
            if srcs.contains(x) {
                let k = choose|k: int| 0 <= k < srcs.len() && srcs[k] == x;
                assert(before[k] == x);
            }
            if before.contains(x) {
                let k = choose|k: int| 0 <= k < before.len() && before[k] == x;
                assert(srcs[k] == x);
            }
        }
        let best = best_option(options, scores, src, options.len());
        if let Some(b) = best {
            assert(asked_for(requests, options[b]));
            let j = choose|j: int|
                0 <= j < requests.len() && (#[trigger] requests[j]).src == options[b].src_idx && requests[j].ships
                    == options[b].ships;
            assert(affords(g, player, committed, min, requests[j]));
            assert(g.planets[src as int].id == orders.last().from_id);
            assert(orders.drop_last() =~= front);
        }
        assert forall|k: int| 0 <= k < orders.len() implies (#[trigger] orders[k]).ships >= min && orders[k].ships
            >= 0 && crate::game::held_by(g.planets, player, orders[k].from_id) by {
            if k < front.len() {
                assert(orders[k] == front[k]);
            }
        }
        assert forall|i: int| 0 <= i < g.planets.len() implies {
            let n = crate::game::asked(orders, (#[trigger] g.planets[i]).id);
            n == 0 || (srcs.contains(i as usize) && 0 <= n <= g.planets[i].ships - committed[i])
        } by {
            if i < src {
                assert(g.planets[i].id != g.planets[src as int].id);
            } else if src < i {
                assert(g.planets[src as int].id != g.planets[i].id);
            }
        }
    }
}

/// The option that is picked for a source is one from there that no other one beats,
/// and of those the first, where all scores can be compared; and one is picked just
/// where there is one.
pub proof fn lemma_best_option_wins(options: Seq<RegroupOption>, scores: Seq<Double>, src: usize, n: nat)
    requires
        forall|m: int| 0 <= m < n && (#[trigger] options[m]).src_idx == src ==> !scores[m].nan(),
    ensures
        match best_option(options, scores, src, n) {
            Some(k) => {
                &&& 0 <= k < n
                &&& options[k].src_idx == src
                &&& forall|m: int|
                    0 <= m < n && (#[trigger] options[m]).src_idx == src ==> !scores[k].below(scores[m])
                &&& forall|m: int|
                    0 <= m < k && (#[trigger] options[m]).src_idx == src ==> scores[m].below(scores[k])
            },
            None => forall|m: int| 0 <= m < n ==> (#[trigger] options[m]).src_idx != src,
        },
    decreases n,
{
    if n > 0 {
        lemma_best_option_wins(options, scores, src, (n - 1) as nat);
        if options[n - 1].src_idx == src {
            assert(!scores[n - 1].nan());
        }
    }
}

/// Where a source has an option, one order goes from it, and where it has none, none
/// does; the orders follow the sources. The order carries out the option that is
/// picked.
pub proof fn lemma_regroup_orders(
    g: GameModel,
    srcs: Seq<usize>,
    options: Seq<RegroupOption>,
    scores: Seq<Double>,
)
    ensures
        ({
            let all = regroup_orders(g, srcs, options, scores);
            let front = regroup_orders(g, srcs.drop_last(), options, scores);
            &&& srcs.len() == 0 ==> all.len() == 0
            &&& srcs.len() > 0 && (forall|m: int|
                0 <= m < options.len() ==> (#[trigger] options[m]).src_idx != srcs.last()) ==> all == front
            &&& srcs.len() > 0 && (exists|m: int|
                0 <= m < options.len() && (#[trigger] options[m]).src_idx == srcs.last()) ==> all.len() == front.len() + 1
                && all.drop_last() == front && all.last().from_id == g.planets[srcs.last() as int].id && exists|m: int|
                0 <= m < options.len() && (#[trigger] options[m]).src_idx == srcs.last() && options[m].ships
                    == all.last().ships && options[m].angle == all.last().angle
        }),
{
    let all = regroup_orders(g, srcs, options, scores);
    let front = regroup_orders(g, srcs.drop_last(), options, scores);
    if srcs.len() > 0 {
        lemma_best_option_there(options, scores, srcs.last(), options.len());
        if let Some(k) = best_option(options, scores, srcs.last(), options.len()) {
            assert(all.drop_last() =~= front);
            assert(options[k].src_idx == srcs.last());
        }
    }
}

proof fn lemma_best_option_there(options: Seq<RegroupOption>, scores: Seq<Double>, src: usize, n: nat)
    ensures
        match best_option(options, scores, src, n) {
            Some(k) => 0 <= k < n && options[k].src_idx == src,
            None => forall|m: int| 0 <= m < n ==> (#[trigger] options[m]).src_idx != src,
        },
    decreases n,
{
    if n > 0 {
        lemma_best_option_there(options, scores, src, (n - 1) as nat);
    }
}

proof fn lemma_best_option(options: Seq<RegroupOption>, scores: Seq<Double>, src: usize, n: nat)
    ensures
        best_option(options, scores, src, n) matches Some(k) ==> 0 <= k < n && options[k].src_idx == src,
    decreases n,
{
    if n > 0 {
        lemma_best_option(options, scores, src, (n - 1) as nat);
    }
}

/// The option is one of the moves that were aimed.
pub open spec fn asked_for(requests: Seq<Request>, o: RegroupOption) -> bool {
    exists|j: int|
        0 <= j < requests.len() && (#[trigger] requests[j]).src == o.src_idx && requests[j].ships == o.ships
}

/// Options come from the moves that were aimed.
pub proof fn lemma_options(
    status: GarrisonStatus,
    requests: Seq<Request>,
    gaps: Seq<Double>,
    shots: Seq<Shot>,
    player: i64,
    delta_min: Double,
    max_time: Double,
    n: nat,
)
    requires
        n <= requests.len(),
    ensures
        forall|k: int|
            0 <= k < options(status, requests, gaps, shots, player, delta_min, max_time, n).len() ==> #[trigger] asked_for(
                requests,
                options(status, requests, gaps, shots, player, delta_min, max_time, n)[k],
            ),
    decreases n,
{
    if n > 0 {
        lemma_options(status, requests, gaps, shots, player, delta_min, max_time, (n - 1) as nat);
        let front = options(status, requests, gaps, shots, player, delta_min, max_time, (n - 1) as nat);
        let all = options(status, requests, gaps, shots, player, delta_min, max_time, n);
        assert forall|k: int| 0 <= k < all.len() implies #[trigger] asked_for(requests, all[k]) by {
            if k < front.len() {
                assert(asked_for(requests, front[k]));
            } else {
                assert(requests[n - 1].src == all[k].src_idx);
            }
        }
    }
}

} // verus!
