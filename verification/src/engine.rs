//! How a tick begins: comets leave and spawn, fleets are launched, and planets
//! produce.
//!
//! A tick runs in this order: `expire_comets`, `spawn_comets`, `launch_fleets`,
//! `produce`, then `plan_planets` of `motion`, and last `resolve_tick` of `tick`,
//! which moves the fleets, fights the battles and decides whether the game is
//! over. Where a step needs a position, the caller computes it and hands it in.

use crate::double::{Double, Point};
use crate::state::{
    find_planet, has_id, CometGroup, Fleet, GameState, Planet, SpawnInjection, COMET_PRODUCTION,
    COMET_RADIUS, NEUTRAL, OFF_BOARD,
};
use vstd::prelude::*;

verus! {

use crate::state::{GameModel, GroupModel};

/// Whether comets spawn in the tick that follows `cur_step`: the ticks before
/// steps 50, 150, 250, 350 and 450.
pub open spec fn spawn_due(cur_step: i64) -> bool {
    cur_step == 49 || cur_step == 149 || cur_step == 249 || cur_step == 349 || cur_step == 449
}

pub fn is_spawn_tick(cur_step: i64) -> (r: bool)
    ensures
        r == spawn_due(cur_step),
        r <==> 0 <= cur_step < 500 && (cur_step + 1) % 100 == 50,
{
    cur_step == 49 || cur_step == 149 || cur_step == 249 || cur_step == 349 || cur_step == 449
}

/// Comets spawn every hundred steps, first at step 50 and last at step 450.
pub proof fn lemma_spawn_due(cur_step: i64)
    ensures
        spawn_due(cur_step) <==> 0 <= cur_step < 500 && (cur_step + 1) % 100 == 50,
        spawn_due(cur_step) && cur_step < 449 ==> spawn_due((cur_step + 100) as i64),
{
}

/// The ids among the first `n` comets of the group that are at the end of
/// their path.
pub open spec fn expired_in(g: GroupModel, n: nat) -> Seq<i64>
    decreases n,
{
    if n == 0 {
        Seq::empty()
    } else {
        let front = expired_in(g, (n - 1) as nat);
        if g.path_index >= g.paths[n - 1].len() {
            front.push(g.planet_ids[n - 1])
        } else {
            front
        }
    }
}

/// The ids of all comets at the end of their path.
pub open spec fn expired_ids(comets: Seq<GroupModel>) -> Seq<i64>
    decreases comets.len(),
{
    if comets.len() == 0 {
        Seq::empty()
    } else {
        expired_ids(comets.drop_last()) + expired_in(comets.last(), comets.last().planet_ids.len())
    }
}

/// The planets whose id is not in `gone`.
pub open spec fn kept_planets(planets: Seq<Planet>, gone: Seq<i64>) -> Seq<Planet>
    decreases planets.len(),
{
    if planets.len() == 0 {
        Seq::empty()
    } else {
        let front = kept_planets(planets.drop_last(), gone);
        if gone.contains(planets.last().id) {
            front
        } else {
            front.push(planets.last())
        }
    }
}

/// The ids that are not in `gone`.
pub open spec fn kept_ids(ids: Seq<i64>, gone: Seq<i64>) -> Seq<i64>
    decreases ids.len(),
{
    if ids.len() == 0 {
        Seq::empty()
    } else {
        let front = kept_ids(ids.drop_last(), gone);
        if gone.contains(ids.last()) {
            front
        } else {
            front.push(ids.last())
        }
    }
}

/// The group without the comets in `gone`; its paths stay as they are.
pub open spec fn kept_group(g: GroupModel, gone: Seq<i64>) -> GroupModel {
    GroupModel { planet_ids: kept_ids(g.planet_ids, gone), ..g }
}

/// The groups without the comets in `gone`, and without the groups that have
/// none left.
pub open spec fn kept_groups(comets: Seq<GroupModel>, gone: Seq<i64>) -> Seq<GroupModel>
    decreases comets.len(),
{
    if comets.len() == 0 {
        Seq::empty()
    } else {
        let front = kept_groups(comets.drop_last(), gone);
        let last = kept_group(comets.last(), gone);
        if last.planet_ids.len() == 0 {
            front
        } else {
            front.push(last)
        }
    }
}

/// The game without the comets in `gone`.
pub open spec fn without_comets(g: GameModel, gone: Seq<i64>) -> GameModel {
    GameModel {
        planets: kept_planets(g.planets, gone),
        initial_planets: kept_planets(g.initial_planets, gone),
        comet_planet_ids: kept_ids(g.comet_planet_ids, gone),
        comets: kept_groups(g.comets, gone),
        ..g
    }
}

/// The game once the comets at the end of their path are gone. Where there are
/// none, nothing changes.
pub open spec fn after_expiry(g: GameModel) -> GameModel {
    let gone = expired_ids(g.comets);
    if gone.len() == 0 {
        g
    } else {
        without_comets(g, gone)
    }
}

/// The comet with the id is at the end of its path.
pub open spec fn at_end(comets: Seq<GroupModel>, id: i64) -> bool {
    exists|c: int, k: int|
        0 <= c < comets.len() && 0 <= k < comets[c].planet_ids.len() && #[trigger] comets[c].planet_ids[k] == id
            && comets[c].path_index >= comets[c].paths[k].len()
}

proof fn lemma_expired_in(g: GroupModel, n: nat, id: i64)
    ensures
        expired_in(g, n).contains(id) <==> exists|k: int|
            0 <= k < n && #[trigger] g.planet_ids[k] == id && g.path_index >= g.paths[k].len(),
    decreases n,
{
    let all = expired_in(g, n);
    if n > 0 {
        let front = expired_in(g, (n - 1) as nat);
        lemma_expired_in(g, (n - 1) as nat, id);
        if front.contains(id) {
            let j = choose|j: int| 0 <= j < front.len() && front[j] == id;
            assert(all[j] == id);
        }
        if all.contains(id) && !front.contains(id) {
            let j = choose|j: int| 0 <= j < all.len() && all[j] == id;
            if j < front.len() {
                assert(front[j] == id);
            }
            assert(g.planet_ids[n - 1] == id);
        }
        if exists|k: int| 0 <= k < n && #[trigger] g.planet_ids[k] == id && g.path_index >= g.paths[k].len() {
            let k = choose|k: int| 0 <= k < n && #[trigger] g.planet_ids[k] == id && g.path_index >= g.paths[k].len();
            if k == n - 1 {
                assert(all[front.len() as int] == id);
            } else {
                assert(front.contains(id));
            }
        }
    }
}

/// The comets that go are those at the end of their path.
pub proof fn lemma_expired(comets: Seq<GroupModel>, id: i64)
    ensures
        expired_ids(comets).contains(id) <==> at_end(comets, id),
    decreases comets.len(),
{
    if comets.len() > 0 {
        let front = comets.drop_last();
        let last = comets.len() - 1;
        let a = expired_ids(front);
        let b = expired_in(comets[last], comets[last].planet_ids.len());
        let all = expired_ids(comets);
        lemma_expired(front, id);
        lemma_expired_in(comets[last], comets[last].planet_ids.len(), id);
        if all.contains(id) {
            let j = choose|j: int| 0 <= j < all.len() && all[j] == id;
            if j < a.len() {
                assert(a[j] == id);
                let (c, k) = choose|c: int, k: int|
                    0 <= c < front.len() && 0 <= k < front[c].planet_ids.len() && #[trigger] front[c].planet_ids[k] == id
                        && front[c].path_index >= front[c].paths[k].len();
                assert(comets[c].planet_ids[k] == id);
            } else {
                assert(b[j - a.len()] == id);
                assert(b.contains(id));
                let k = choose|k: int|
                    0 <= k < comets[last].planet_ids.len() && #[trigger] comets[last].planet_ids[k] == id
                        && comets[last].path_index >= comets[last].paths[k].len();
                assert(comets[last].planet_ids[k] == id);
            }
        }
        if at_end(comets, id) {
            let (c, k) = choose|c: int, k: int|
                0 <= c < comets.len() && 0 <= k < comets[c].planet_ids.len() && #[trigger] comets[c].planet_ids[k] == id
                    && comets[c].path_index >= comets[c].paths[k].len();
            if c < last {
                assert(front[c].planet_ids[k] == id);
                assert(a.contains(id));
                let j = choose|j: int| 0 <= j < a.len() && a[j] == id;
                assert(all[j] == id);
            } else {
                assert(b.contains(id));
                let j = choose|j: int| 0 <= j < b.len() && b[j] == id;
                assert(all[a.len() + j] == id);
            }
        }
    }
}

proof fn lemma_kept_planets(planets: Seq<Planet>, gone: Seq<i64>)
    ensures
        kept_planets(planets, gone) == planets.filter(|p: Planet| !gone.contains(p.id)),
    decreases planets.len(),
{
    reveal(Seq::filter);
    if planets.len() > 0 {
        lemma_kept_planets(planets.drop_last(), gone);
    } else {
        assert(planets =~= Seq::<Planet>::empty());
    }
}

proof fn lemma_kept_ids(ids: Seq<i64>, gone: Seq<i64>)
    ensures
        kept_ids(ids, gone) == ids.filter(|id: i64| !gone.contains(id)),
    decreases ids.len(),
{
    reveal(Seq::filter);
    if ids.len() > 0 {
        lemma_kept_ids(ids.drop_last(), gone);
    } else {
        assert(ids =~= Seq::<i64>::empty());
    }
}

proof fn lemma_kept_groups(comets: Seq<GroupModel>, gone: Seq<i64>)
    ensures
        kept_groups(comets, gone) == comets.map_values(
            |c: GroupModel|
                GroupModel {
                    planet_ids: c.planet_ids.filter(|id: i64| !gone.contains(id)),
                    paths: c.paths,
                    path_index: c.path_index,
                },
        ).filter(|c: GroupModel| c.planet_ids.len() > 0),
    decreases comets.len(),
{
    reveal(Seq::filter);
    let f = |c: GroupModel|
        GroupModel {
            planet_ids: c.planet_ids.filter(|id: i64| !gone.contains(id)),
            paths: c.paths,
            path_index: c.path_index,
        };
    let all = comets.map_values(f);
    if comets.len() > 0 {
        let front = comets.drop_last();
        lemma_kept_groups(front, gone);
        lemma_kept_ids(comets.last().planet_ids, gone);
        assert(all.drop_last() =~= front.map_values(f));
        assert(all.last() == kept_group(comets.last(), gone));
    } else {
        assert(all =~= Seq::<GroupModel>::empty());
    }
}

/// Taking comets out leaves the planets, the initial copies, the listed ids and the
/// groups with those that are not taken out, in their order, and drops the groups that
/// have none left. Fleets and all else stay as they are.
pub proof fn lemma_without(g: GameModel, gone: Seq<i64>)
    ensures
        ({
            let w = without_comets(g, gone);
            &&& w.planets == g.planets.filter(|p: Planet| !gone.contains(p.id))
            &&& w.initial_planets == g.initial_planets.filter(|p: Planet| !gone.contains(p.id))
            &&& w.comet_planet_ids == g.comet_planet_ids.filter(|id: i64| !gone.contains(id))
            &&& w.comets == g.comets.map_values(
                |c: GroupModel|
                    GroupModel {
                        planet_ids: c.planet_ids.filter(|id: i64| !gone.contains(id)),
                        paths: c.paths,
                        path_index: c.path_index,
                    },
            ).filter(|c: GroupModel| c.planet_ids.len() > 0)
            &&& w.fleets == g.fleets
            &&& w.next_fleet_id == g.next_fleet_id
            &&& w.angular_velocity == g.angular_velocity
        }),
{
    lemma_kept_planets(g.planets, gone);
    lemma_kept_planets(g.initial_planets, gone);
    lemma_kept_ids(g.comet_planet_ids, gone);
    lemma_kept_groups(g.comets, gone);
}

/// Once comets expire, the planets left are those that are no comets at the end of
/// their path; and where no comet is at the end of its path, nothing changes.
pub proof fn lemma_after_expiry(g: GameModel)
    ensures
        after_expiry(g).planets == g.planets.filter(|p: Planet| !at_end(g.comets, p.id)),
        after_expiry(g).initial_planets == g.initial_planets.filter(|p: Planet| !at_end(g.comets, p.id)),
        after_expiry(g).comet_planet_ids == g.comet_planet_ids.filter(|id: i64| !at_end(g.comets, id)),
        after_expiry(g).fleets == g.fleets,
        after_expiry(g).next_fleet_id == g.next_fleet_id,
        after_expiry(g).angular_velocity == g.angular_velocity,
        (forall|id: i64| !#[trigger] at_end(g.comets, id)) ==> after_expiry(g) == g,
{
    let gone = expired_ids(g.comets);
    lemma_without(g, gone);
    assert forall|id: i64| gone.contains(id) == at_end(g.comets, id) by {
        lemma_expired(g.comets, id);
    }
    let a = |p: Planet| !gone.contains(p.id);
    let b = |p: Planet| !at_end(g.comets, p.id);
    assert(a =~= b);
    let c = |id: i64| !gone.contains(id);
    let d = |id: i64| !at_end(g.comets, id);
    assert(c =~= d);
    if gone.len() == 0 {
        lemma_all_kept(g.planets, b);
        lemma_all_kept(g.initial_planets, b);
        lemma_all_kept(g.comet_planet_ids, d);
    } else {
        assert(gone.contains(gone[0]));
    }
}

proof fn lemma_all_kept<A>(s: Seq<A>, f: spec_fn(A) -> bool)
    requires
        forall|x: A| #[trigger] f(x),
    ensures
        s.filter(f) == s,
    decreases s.len(),
{
    reveal(Seq::filter);
    if s.len() > 0 {
        lemma_all_kept(s.drop_last(), f);
        assert(f(s.last()));
        assert(s.drop_last().push(s.last()) =~= s);
    }
}

fn keep_planets(planets: &Vec<Planet>, gone: &Vec<i64>) -> (r: Vec<Planet>)
    ensures
        r@ == kept_planets(planets@, gone@),
{
    let mut r: Vec<Planet> = Vec::new();
    let mut i: usize = 0;
    assert(planets@.take(0) =~= Seq::<Planet>::empty());
    while i < planets.len()
        invariant
            i <= planets@.len(),
            r@ == kept_planets(planets@.take(i as int), gone@),
        decreases planets@.len() - i,
    {
        assert(planets@.take(i + 1).drop_last() =~= planets@.take(i as int));
        if !has_id(gone, planets[i].id) {
            r.push(planets[i]);
        }
        i += 1;
    }
    assert(planets@.take(i as int) =~= planets@);
    r
}

fn keep_ids(ids: &Vec<i64>, gone: &Vec<i64>) -> (r: Vec<i64>)
    ensures
        r@ == kept_ids(ids@, gone@),
{
    let mut r: Vec<i64> = Vec::new();
    let mut i: usize = 0;
    assert(ids@.take(0) =~= Seq::<i64>::empty());
    while i < ids.len()
        invariant
            i <= ids@.len(),
            r@ == kept_ids(ids@.take(i as int), gone@),
        decreases ids@.len() - i,
    {
        assert(ids@.take(i + 1).drop_last() =~= ids@.take(i as int));
        if !has_id(gone, ids[i]) {
            r.push(ids[i]);
        }
        i += 1;
    }
    assert(ids@.take(i as int) =~= ids@);
    r
}

fn keep_groups(comets: Vec<CometGroup>, gone: &Vec<i64>) -> (r: Vec<CometGroup>)
    ensures
        crate::state::groups_model(r@) == kept_groups(crate::state::groups_model(comets@), gone@),
{
    let ghost all = crate::state::groups_model(comets@);
    let mut rest: Vec<CometGroup> = comets;
    let mut r: Vec<CometGroup> = Vec::new();
    // Groups are taken off the end, so the kept ones come out in reverse.
    let mut n: usize = rest.len();
    assert(all.take(n as int) =~= all);
    while n > 0
        invariant
            n == rest@.len(),
            n <= all.len(),
            crate::state::groups_model(rest@) == all.take(n as int),
            kept_groups(all, gone@) == kept_groups(all.take(n as int), gone@) + crate::state::groups_model(
                r@,
            ).reverse(),
        decreases n,
    {
        let ghost before = all.take(n as int);
        let ghost done = crate::state::groups_model(r@);
        let ghost rest_before = rest@;
        let last = rest.pop();
        n -= 1;
        match last {
            Some(g) => {
                assert(g == rest_before[n as int]);
                assert(crate::state::groups_model(rest_before)[n as int] == g@);
                let ids = keep_ids(&g.planet_ids, gone);
                let kept = CometGroup { planet_ids: ids, paths: g.paths, path_index: g.path_index };
                assert(before.drop_last() =~= all.take(n as int));
                assert(kept@ == kept_group(before.last(), gone@));
                if kept.planet_ids.len() > 0 {
                    let ghost k = kept@;
                    r.push(kept);
                    assert(crate::state::groups_model(r@) =~= done.push(k));
                    assert(done.push(k).reverse() =~= seq![k] + done.reverse());
                    assert(kept_groups(all.take(n as int), gone@).push(k) + done.reverse() =~= kept_groups(
                        all.take(n as int),
                        gone@,
                    ) + (seq![k] + done.reverse()));
                }
            },
            None => {
                assert(false);
            },
        }
        assert(crate::state::groups_model(rest@) =~= all.take(n as int));
    }
    assert(all.take(0) =~= Seq::<GroupModel>::empty());
    let ghost backwards = crate::state::groups_model(r@);
    assert(kept_groups(all, gone@) =~= backwards.reverse());
    let mut out: Vec<CometGroup> = Vec::new();
    let mut m: usize = r.len();
    while m > 0
        invariant
            m == r@.len(),
            m <= backwards.len(),
            crate::state::groups_model(r@) == backwards.take(m as int),
            crate::state::groups_model(out@) == backwards.skip(m as int).reverse(),
        decreases m,
    {
        let ghost out_before = crate::state::groups_model(out@);
        let ghost r_before = r@;
        let last = r.pop();
        m -= 1;
        match last {
            Some(g) => {
                let ghost k = g@;
                assert(crate::state::groups_model(r_before)[m as int] == k);
                out.push(g);
                assert(crate::state::groups_model(out@) =~= out_before.push(k));
                assert(backwards.skip(m as int) =~= seq![k] + backwards.skip(m + 1));
                assert((seq![k] + backwards.skip(m + 1)).reverse() =~= backwards.skip(m + 1).reverse().push(k));
            },
            None => {
                assert(false);
            },
        }
        assert(crate::state::groups_model(r@) =~= backwards.take(m as int));
    }
    assert(backwards.skip(0) =~= backwards);
    out
}

/// Takes the comets in `gone` out of the game: their planets, their initial
/// copies, their ids, and the groups that have none left.
pub(crate) fn remove_comets(g: &mut GameState, gone: &Vec<i64>)
    ensures
        final(g)@ == without_comets(old(g)@, gone@),
{
    let planets = keep_planets(&g.planets, gone);
    let initial = keep_planets(&g.initial_planets, gone);
    let ids = keep_ids(&g.comet_planet_ids, gone);
    let mut comets: Vec<CometGroup> = Vec::new();
    std::mem::swap(&mut comets, &mut g.comets);
    let kept = keep_groups(comets, gone);
    g.planets = planets;
    g.initial_planets = initial;
    g.comet_planet_ids = ids;
    g.comets = kept;
}

/// The ids of the comets that are at the end of their path.
fn find_expired(g: &GameState) -> (gone: Vec<i64>)
    requires
        g@.guided(),
    ensures
        gone@ == expired_ids(g@.comets),
{
    let mut gone: Vec<i64> = Vec::new();
    let mut k: usize = 0;
    let ghost comets = g@.comets;
    assert(comets.take(0) =~= Seq::<GroupModel>::empty());
    while k < g.comets.len()
        invariant
            k <= g.comets@.len(),
            g@.guided(),
            comets == g@.comets,
            gone@ == expired_ids(comets.take(k as int)),
        decreases g.comets@.len() - k,
    {
        let group = &g.comets[k];
        let ghost m = comets[k as int];
        assert(m == group@ && m.valid());
        let ghost start = gone@;
        let mut i: usize = 0;
        assert(start + expired_in(m, 0) =~= start);
        while i < group.planet_ids.len()
            invariant
                i <= group.planet_ids@.len(),
                group@ == m,
                m.valid(),
                gone@ == start + expired_in(m, i as nat),
            decreases group.planet_ids@.len() - i,
        {
            assert(m.paths[i as int] == group.paths@[i as int]@);
            let len: usize = group.paths[i].len();
            if group.path_index >= 0 && group.path_index as u64 >= len as u64 {
                gone.push(group.planet_ids[i]);
            }
            i += 1;
            assert(gone@ =~= start + expired_in(m, i as nat));
        }
        assert(comets.take(k + 1).drop_last() =~= comets.take(k as int));
        k += 1;
    }
    assert(comets.take(k as int) =~= comets);
    gone
}

/// Removes the comets that are at the end of their path.
pub fn expire_comets(g: &mut GameState)
    requires
        old(g)@.valid(),
    ensures
        final(g)@ == after_expiry(old(g)@),
        final(g)@.valid(),
{
    let gone = find_expired(g);
    proof {
        lemma_without_valid(g@, gone@);
    }
    if gone.len() > 0 {
        remove_comets(g, &gone);
    }
}

/// Taking comets out keeps a game valid.
pub proof fn lemma_without_valid(g: GameModel, gone: Seq<i64>)
    requires
        g.valid(),
    ensures
        without_comets(g, gone).valid(),
{
    lemma_kept_aligned(g.planets, g.initial_planets, gone);
    lemma_kept_from(g.planets, gone);
    lemma_kept_groups_valid(g.comets, gone);
    let w = without_comets(g, gone);
    assert forall|i: int| 0 <= i < w.planets.len() implies (#[trigger] w.planets[i]).ships >= 0
        && w.planets[i].production >= 0 by {
        assert(g.planets.contains(w.planets[i]));
    }
}

proof fn lemma_kept_aligned(a: Seq<Planet>, b: Seq<Planet>, gone: Seq<i64>)
    requires
        a.len() == b.len(),
        forall|i: int| 0 <= i < a.len() ==> (#[trigger] a[i]).id == b[i].id,
    ensures
        kept_planets(a, gone).len() == kept_planets(b, gone).len(),
        forall|i: int|
            0 <= i < kept_planets(a, gone).len() ==> (#[trigger] kept_planets(a, gone)[i]).id == kept_planets(b, gone)[i].id,
    decreases a.len(),
{
    if a.len() > 0 {
        let (fa, fb) = (a.drop_last(), b.drop_last());
        assert forall|i: int| 0 <= i < fa.len() implies (#[trigger] fa[i]).id == fb[i].id by {
            assert(fa[i] == a[i]);
        }
        lemma_kept_aligned(fa, fb, gone);
        assert(a[a.len() - 1].id == b[b.len() - 1].id);
    }
}

/// The planets that are kept were there before.
pub proof fn lemma_kept_from(a: Seq<Planet>, gone: Seq<i64>)
    ensures
        forall|i: int| 0 <= i < kept_planets(a, gone).len() ==> a.contains(#[trigger] kept_planets(a, gone)[i]),
    decreases a.len(),
{
    if a.len() > 0 {
        let front = a.drop_last();
        lemma_kept_from(front, gone);
        assert forall|i: int| 0 <= i < kept_planets(a, gone).len() implies a.contains(
            #[trigger] kept_planets(a, gone)[i],
        ) by {
            if i < kept_planets(front, gone).len() {
                let p = kept_planets(front, gone)[i];
                assert(front.contains(p));
                let j = choose|j: int| 0 <= j < front.len() && front[j] == p;
                assert(a[j] == p);
            } else {
                assert(a[a.len() - 1] == kept_planets(a, gone)[i]);
            }
        }
    }
}

proof fn lemma_kept_ids_len(ids: Seq<i64>, gone: Seq<i64>)
    ensures
        kept_ids(ids, gone).len() <= ids.len(),
    decreases ids.len(),
{
    if ids.len() > 0 {
        lemma_kept_ids_len(ids.drop_last(), gone);
    }
}

proof fn lemma_kept_groups_valid(comets: Seq<GroupModel>, gone: Seq<i64>)
    requires
        forall|i: int| 0 <= i < comets.len() ==> (#[trigger] comets[i]).valid(),
    ensures
        forall|i: int| 0 <= i < kept_groups(comets, gone).len() ==> (#[trigger] kept_groups(comets, gone)[i]).valid(),
    decreases comets.len(),
{
    if comets.len() > 0 {
        let front = comets.drop_last();
        assert forall|i: int| 0 <= i < front.len() implies (#[trigger] front[i]).valid() by {
            assert(front[i] == comets[i]);
        }
        lemma_kept_groups_valid(front, gone);
        lemma_kept_ids_len(comets.last().planet_ids, gone);
        assert(comets[comets.len() - 1].valid());
        let before = kept_groups(front, gone);
        assert forall|i: int| 0 <= i < kept_groups(comets, gone).len() implies (#[trigger] kept_groups(
            comets,
            gone,
        )[i]).valid() by {
            if i < before.len() {
                assert(before[i].valid());
            }
        }
    }
}

/// The greatest id of a planet.
pub open spec fn max_id(planets: Seq<Planet>) -> int
    decreases planets.len(),
{
    if planets.len() <= 1 {
        planets[0].id as int
    } else {
        let front = max_id(planets.drop_last());
        if planets.last().id > front {
            planets.last().id as int
        } else {
            front
        }
    }
}

/// A comet as it spawns: neutral, and off the board.
pub open spec fn new_comet(id: int, ships: i64) -> Planet {
    Planet {
        id: id as i64,
        owner: NEUTRAL,
        x: Double { bits: OFF_BOARD },
        y: Double { bits: OFF_BOARD },
        radius: Double { bits: COMET_RADIUS },
        ships,
        production: COMET_PRODUCTION,
    }
}

/// The ids that `n` new comets take.
pub open spec fn new_ids(planets: Seq<Planet>, n: nat) -> Seq<i64> {
    Seq::new(n, |i: int| (max_id(planets) + 1 + i) as i64)
}

/// The planets of `n` new comets.
pub open spec fn new_comets(planets: Seq<Planet>, n: nat, ships: i64) -> Seq<Planet> {
    Seq::new(n, |i: int| new_comet(max_id(planets) + 1 + i, ships))
}

/// The game with a new comet for each path, numbered on from the greatest id.
pub open spec fn with_comets(g: GameModel, paths: Seq<Seq<Point>>, ships: i64) -> GameModel {
    let ids = new_ids(g.planets, paths.len());
    let fresh = new_comets(g.planets, paths.len(), ships);
    GameModel {
        planets: g.planets + fresh,
        initial_planets: g.initial_planets + fresh,
        comet_planet_ids: g.comet_planet_ids + ids,
        comets: g.comets.push(GroupModel { planet_ids: ids, paths, path_index: -1 }),
        ..g
    }
}

/// No planet has a greater id than the greatest one, which one of them has.
pub proof fn lemma_max_id(planets: Seq<Planet>)
    requires
        planets.len() > 0,
    ensures
        forall|i: int| 0 <= i < planets.len() ==> (#[trigger] planets[i]).id <= max_id(planets),
        exists|i: int| 0 <= i < planets.len() && (#[trigger] planets[i]).id == max_id(planets),
    decreases planets.len(),
{
    if planets.len() > 1 {
        let front = planets.drop_last();
        lemma_max_id(front);
        assert forall|i: int| 0 <= i < planets.len() implies (#[trigger] planets[i]).id <= max_id(planets) by {
            if i < front.len() {
                assert(front[i] == planets[i]);
            }
        }
        if planets.last().id > max_id(front) {
            assert(planets[planets.len() - 1].id == max_id(planets));
        } else {
            let i = choose|i: int| 0 <= i < front.len() && (#[trigger] front[i]).id == max_id(front);
            assert(planets[i].id == max_id(planets));
        }
    } else {
        assert(planets[0].id == max_id(planets));
    }
}

/// Comets spawn after the planets that are there, one for each path, with ids that are
/// greater than all in use and follow one another; they are nobody's, have the ships
/// that are given, make one ship a step, and wait before the start of their paths.
pub proof fn lemma_spawned(g: GameModel, paths: Seq<Seq<Point>>, ships: i64)
    requires
        g.planets.len() > 0,
        max_id(g.planets) + paths.len() <= i64::MAX,
    ensures
        ({
            let w = with_comets(g, paths, ships);
            let n = g.planets.len() as int;
            &&& w.planets.len() == n + paths.len()
            &&& g.planets.is_prefix_of(w.planets)
            &&& forall|i: int, j: int|
                0 <= i < n <= j < w.planets.len() ==> (#[trigger] w.planets[i]).id < (#[trigger] w.planets[j]).id
            &&& forall|j: int| n < j < w.planets.len() ==> (#[trigger] w.planets[j]).id == w.planets[n].id + (j - n)
            &&& paths.len() > 0 ==> exists|i: int| 0 <= i < n && (#[trigger] g.planets[i]).id + 1 == w.planets[n].id
            &&& forall|j: int|
                n <= j < w.planets.len() ==> (#[trigger] w.planets[j]).owner == -1 && w.planets[j].ships == ships
                    && w.planets[j].production == 1
            &&& w.initial_planets.len() == g.initial_planets.len() + paths.len()
            &&& g.initial_planets.is_prefix_of(w.initial_planets)
            &&& forall|k: int|
                0 <= k < paths.len() ==> #[trigger] w.initial_planets[g.initial_planets.len() + k] == w.planets[n + k]
            &&& w.comet_planet_ids.len() == g.comet_planet_ids.len() + paths.len()
            &&& g.comet_planet_ids.is_prefix_of(w.comet_planet_ids)
            &&& w.comets.len() == g.comets.len() + 1
            &&& w.comets.drop_last() == g.comets
            &&& w.comets.last().paths == paths
            &&& w.comets.last().path_index == -1
            &&& w.comets.last().planet_ids.len() == paths.len()
            &&& forall|k: int|
                0 <= k < paths.len() ==> #[trigger] w.comets.last().planet_ids[k] == w.planets[n + k].id
                    && w.comet_planet_ids[g.comet_planet_ids.len() + k] == w.planets[n + k].id
            &&& w.fleets == g.fleets && w.next_fleet_id == g.next_fleet_id && w.angular_velocity == g.angular_velocity
        }),
{
    let w = with_comets(g, paths, ships);
    let n = g.planets.len() as int;
    let fresh = new_comets(g.planets, paths.len(), ships);
    lemma_max_id(g.planets);
    assert(w.planets.subrange(0, n) =~= g.planets);
    assert(w.initial_planets.subrange(0, g.initial_planets.len() as int) =~= g.initial_planets);
    assert(w.comet_planet_ids.subrange(0, g.comet_planet_ids.len() as int) =~= g.comet_planet_ids);
    assert(w.comets.drop_last() =~= g.comets);
    assert forall|j: int| n <= j < w.planets.len() implies (#[trigger] w.planets[j]).id == max_id(g.planets) + 1 + (j - n)
        && w.planets[j].owner == -1 && w.planets[j].ships == ships && w.planets[j].production == 1 by {
        assert(w.planets[j] == fresh[j - n]);
    }
    assert forall|i: int, j: int| 0 <= i < n <= j < w.planets.len() implies (#[trigger] w.planets[i]).id < (
    #[trigger] w.planets[j]).id by {
        assert(w.planets[i] == g.planets[i]);
    }
    if paths.len() > 0 {
        let i = choose|i: int| 0 <= i < g.planets.len() && (#[trigger] g.planets[i]).id == max_id(g.planets);
        assert(g.planets[i].id + 1 == w.planets[n].id);
    }
}

fn greatest_id(planets: &Vec<Planet>) -> (m: i64)
    requires
        planets@.len() > 0,
    ensures
        m == max_id(planets@),
{
    let mut m: i64 = planets[0].id;
    let mut i: usize = 1;
    assert(planets@.take(1).len() == 1);
    while i < planets.len()
        invariant
            1 <= i <= planets@.len(),
            m == max_id(planets@.take(i as int)),
        decreases planets@.len() - i,
    {
        assert(planets@.take(i + 1).drop_last() =~= planets@.take(i as int));
        if planets[i].id > m {
            m = planets[i].id;
        }
        i += 1;
    }
    assert(planets@.take(i as int) =~= planets@);
    m
}

/// Whether `n` new comets can be numbered once those at the end of their path are
/// gone: there is a planet left, and the ids after the greatest one suffice.
pub open spec fn can_number(g: GameModel, n: nat) -> bool {
    let left = after_expiry(g).planets;
    left.len() > 0 && max_id(left) + n <= i64::MAX
}

proof fn lemma_filter_part<A>(s: Seq<A>, f: spec_fn(A) -> bool, i: int)
    requires
        0 <= i < s.filter(f).len(),
    ensures
        s.contains(s.filter(f)[i]),
    decreases s.len(),
{
    reveal(Seq::filter);
    let front = s.drop_last();
    if i < front.filter(f).len() {
        lemma_filter_part(front, f, i);
        let k = choose|k: int| 0 <= k < front.len() && front[k] == front.filter(f)[i];
        assert(s[k] == s.filter(f)[i]);
    } else {
        assert(s[s.len() - 1] == s.filter(f)[i]);
    }
}

/// New comets can be numbered just where a planet is left that is no comet at the end of
/// its path, and the ids after that of every such planet suffice.
pub proof fn lemma_can_number(g: GameModel, n: nat)
    ensures
        can_number(g, n) <==> {
            &&& exists|i: int| 0 <= i < g.planets.len() && !at_end(g.comets, (#[trigger] g.planets[i]).id)
            &&& forall|i: int|
                0 <= i < g.planets.len() && !at_end(g.comets, (#[trigger] g.planets[i]).id) ==> g.planets[i].id + n
                    <= i64::MAX
        },
{
    let keep = |p: Planet| !at_end(g.comets, p.id);
    let left = after_expiry(g).planets;
    lemma_after_expiry(g);
    assert(left == g.planets.filter(keep));
    assert forall|i: int| 0 <= i < g.planets.len() && keep(#[trigger] g.planets[i]) implies left.contains(
        g.planets[i],
    ) by {
        g.planets.lemma_filter_contains(keep, i);
    }
    if left.len() > 0 {
        lemma_max_id(left);
        let k = choose|k: int| 0 <= k < left.len() && (#[trigger] left[k]).id == max_id(left);
        g.planets.lemma_filter_pred(keep, k);
        lemma_filter_part(g.planets, keep, k);
        let i = choose|i: int| 0 <= i < g.planets.len() && g.planets[i] == left[k];
        assert(keep(g.planets[i]));
        assert(g.planets[i].id == max_id(left));
        assert forall|j: int|
            0 <= j < g.planets.len() && !at_end(g.comets, (#[trigger] g.planets[j]).id) implies g.planets[j].id
            <= max_id(left) by {
            assert(keep(g.planets[j]));
            let m = choose|m: int| 0 <= m < left.len() && left[m] == g.planets[j];
            assert(left[m].id <= max_id(left));
        }
    } else {
        assert forall|j: int| 0 <= j < g.planets.len() implies at_end(g.comets, (#[trigger] g.planets[j]).id) by {
            if keep(g.planets[j]) {
                assert(left.contains(g.planets[j]));
            }
        }
    }
}

pub(crate) fn has_numbers(g: &GameState, n: usize) -> (r: bool)
    requires
        g@.guided(),
    ensures
        r == can_number(g@, n as nat),
        r <==> {
            &&& exists|i: int| 0 <= i < g@.planets.len() && !at_end(g@.comets, (#[trigger] g@.planets[i]).id)
            &&& forall|i: int|
                0 <= i < g@.planets.len() && !at_end(g@.comets, (#[trigger] g@.planets[i]).id) ==> g@.planets[i].id + n
                    <= i64::MAX
        },
{
    proof {
        lemma_can_number(g@, n as nat);
    }
    let gone = find_expired(g);
    let kept = keep_planets(&g.planets, &gone);
    let left = if gone.len() == 0 {
        &g.planets
    } else {
        &kept
    };
    if left.len() == 0 {
        return false;
    }
    let top: i64 = greatest_id(left);
    top as i128 + n as i128 <= i64::MAX as i128
}

/// Adds a comet for each path of `spawn`. The ids follow the greatest one in use.
pub fn spawn_comets(g: &mut GameState, spawn: SpawnInjection)
    requires
        old(g)@.valid(),
        old(g)@.planets.len() > 0,
        max_id(old(g)@.planets) + spawn.paths@.len() <= i64::MAX,
        spawn.ships >= 0,
    ensures
        final(g)@ == with_comets(old(g)@, crate::state::paths_model(spawn.paths@), spawn.ships),
        final(g)@.valid(),
{
    let n: usize = spawn.paths.len();
    let top: i64 = greatest_id(&g.planets);
    let ships: i64 = spawn.ships;
    let mut ids: Vec<i64> = Vec::new();
    let mut i: usize = 0;
    let mut pid: i64 = top;
    let ghost start = g@;
    let ghost ids_all = new_ids(start.planets, n as nat);
    let ghost fresh = new_comets(start.planets, n as nat, ships);
    while i < n
        invariant
            i <= n,
            top == max_id(start.planets),
            top + n <= i64::MAX,
            pid == top + i,
            ids_all == new_ids(start.planets, n as nat),
            fresh == new_comets(start.planets, n as nat, ships),
            ids@ =~= ids_all.take(i as int),
            g@.planets =~= start.planets + fresh.take(i as int),
            g@.initial_planets =~= start.initial_planets + fresh.take(i as int),
            g@.comet_planet_ids =~= start.comet_planet_ids + ids_all.take(i as int),
            g@.comets == start.comets,
            g@.fleets == start.fleets,
            g@.next_fleet_id == start.next_fleet_id,
            g@.angular_velocity == start.angular_velocity,
        decreases n - i,
    {
        pid = pid + 1;
        ids.push(pid);
        g.comet_planet_ids.push(pid);
        let planet = Planet {
            id: pid,
            owner: NEUTRAL,
            x: Double { bits: OFF_BOARD },
            y: Double { bits: OFF_BOARD },
            radius: Double { bits: COMET_RADIUS },
            ships,
            production: COMET_PRODUCTION,
        };
        assert(planet == fresh[i as int]);
        g.planets.push(planet);
        g.initial_planets.push(planet);
        i += 1;
    }
    let ghost paths = crate::state::paths_model(spawn.paths@);
    let group = CometGroup { planet_ids: ids, paths: spawn.paths, path_index: -1 };
    let ghost gm = group@;
    assert(gm.planet_ids =~= ids_all && gm.paths == paths);
    g.comets.push(group);
    assert(g@.comets =~= start.comets.push(gm));
    assert(g@ =~= with_comets(start, paths, ships));
    proof {
        lemma_with_comets_valid(start, paths, ships);
    }
}

/// Spawning comets keeps a game valid.
pub proof fn lemma_with_comets_valid(g: GameModel, paths: Seq<Seq<Point>>, ships: i64)
    requires
        g.valid(),
        ships >= 0,
    ensures
        with_comets(g, paths, ships).valid(),
{
    let w = with_comets(g, paths, ships);
    let fresh = new_comets(g.planets, paths.len(), ships);
    assert forall|i: int| 0 <= i < w.planets.len() implies (#[trigger] w.planets[i]).id == w.initial_planets[i].id by {
        if i < g.planets.len() {
            assert(w.planets[i] == g.planets[i]);
        } else {
            assert(w.planets[i] == fresh[i - g.planets.len()]);
        }
    }
    assert forall|i: int| 0 <= i < w.planets.len() implies (#[trigger] w.planets[i]).ships >= 0
        && w.planets[i].production >= 0 by {
        if i < g.planets.len() {
            assert(w.planets[i] == g.planets[i]);
        } else {
            assert(w.planets[i] == fresh[i - g.planets.len()]);
        }
    }
    assert forall|i: int| 0 <= i < w.comets.len() implies (#[trigger] w.comets[i]).valid() by {
        if i < g.comets.len() {
            assert(w.comets[i] == g.comets[i]);
        }
    }
}

/// A launch order with the point at which its fleet starts out.
#[derive(Clone, Copy, PartialEq, Eq, Structural, Debug)]
pub struct Order {
    pub from_id: i64,
    pub angle: Double,
    pub ships: i64,
    pub start: Point,
}

/// Whether `player` may launch `o` from `p`.
pub open spec fn may_launch(p: Planet, player: i64, o: Order) -> bool {
    p.owner == player && p.ships >= o.ships && o.ships > 0
}

/// The game once `player` has given the order: a fleet leaves the planet, or
/// nothing happens where the player may not launch.
pub open spec fn launched(g: GameModel, player: i64, o: Order) -> GameModel {
    match crate::state::planet_index(g.planets, o.from_id) {
        Some(i) => if may_launch(g.planets[i], player, o) {
            GameModel {
                planets: g.planets.update(
                    i,
                    Planet { ships: (g.planets[i].ships - o.ships) as i64, ..g.planets[i] },
                ),
                fleets: g.fleets.push(
                    Fleet {
                        id: g.next_fleet_id as i64,
                        owner: player,
                        x: o.start.x,
                        y: o.start.y,
                        angle: o.angle,
                        from_planet_id: o.from_id,
                        ships: o.ships,
                    },
                ),
                next_fleet_id: g.next_fleet_id + 1,
                ..g
            }
        } else {
            g
        },
        None => g,
    }
}

/// An order is carried out just where it names a planet of the player, and sends ships,
/// but no more than are there. Then the ships leave the planet and are a fleet of the
/// player, with the next id; nothing else changes. Else nothing changes at all.
pub proof fn lemma_order(g: GameModel, player: i64, o: Order, i: int)
    requires
        0 <= i < g.planets.len(),
        g.planets[i].id == o.from_id,
        forall|j: int| 0 <= j < i ==> (#[trigger] g.planets[j]).id != o.from_id,
        i64::MIN <= g.next_fleet_id <= i64::MAX,
    ensures
        ({
            let w = launched(g, player, o);
            let sent = g.planets[i].owner == player && 0 < o.ships <= g.planets[i].ships;
            &&& !sent ==> w == g
            &&& sent ==> {
                &&& w.planets.len() == g.planets.len()
                &&& w.planets[i].ships == g.planets[i].ships - o.ships
                &&& w.planets[i].owner == player && w.planets[i].id == o.from_id && w.planets[i].production
                    == g.planets[i].production
                &&& w.planets[i].x == g.planets[i].x && w.planets[i].y == g.planets[i].y && w.planets[i].radius
                    == g.planets[i].radius
                &&& forall|j: int| 0 <= j < g.planets.len() && j != i ==> #[trigger] w.planets[j] == g.planets[j]
                &&& w.fleets.len() == g.fleets.len() + 1
                &&& w.fleets.drop_last() == g.fleets
                &&& w.fleets.last().id == g.next_fleet_id && w.fleets.last().owner == player && w.fleets.last().ships
                    == o.ships && w.fleets.last().angle == o.angle && w.fleets.last().from_planet_id == o.from_id
                &&& w.fleets.last().x == o.start.x && w.fleets.last().y == o.start.y
                &&& w.next_fleet_id == g.next_fleet_id + 1
                &&& w.comets == g.comets && w.comet_planet_ids == g.comet_planet_ids && w.initial_planets
                    == g.initial_planets && w.angular_velocity == g.angular_velocity
            }
        }),
{
    crate::state::lemma_planet_index(g.planets, o.from_id);
    let at = crate::state::planet_index(g.planets, o.from_id)->0;
    assert(at == i) by {
        if at < i {
            assert(g.planets[at].id != o.from_id);
        } else if i < at {
            assert(g.planets[i].id != o.from_id);
        }
    }
    let w = launched(g, player, o);
    if may_launch(g.planets[i], player, o) {
        assert(w.fleets.drop_last() =~= g.fleets);
    }
}

/// The game once `player` has given the orders, one after the other.
pub open spec fn launched_all(g: GameModel, player: i64, orders: Seq<Order>) -> GameModel
    decreases orders.len(),
{
    if orders.len() == 0 {
        g
    } else {
        launched(launched_all(g, player, orders.drop_last()), player, orders.last())
    }
}

/// The game once each player, from player 0 on, has given its orders.
pub open spec fn after_launch(g: GameModel, actions: Seq<Vec<Order>>) -> GameModel
    decreases actions.len(),
{
    if actions.len() == 0 {
        g
    } else {
        launched_all(after_launch(g, actions.drop_last()), (actions.len() - 1) as i64, actions.last()@)
    }
}

/// The fleet carries out one of the orders of its owner.
pub open spec fn ordered(actions: Seq<Vec<Order>>, f: Fleet) -> bool {
    exists|p: int, k: int|
        0 <= p < actions.len() && 0 <= k < actions[p]@.len() && f.owner == p && (#[trigger] actions[p]@[k]).from_id
            == f.from_planet_id && actions[p]@[k].ships == f.ships && actions[p]@[k].angle == f.angle
}

proof fn lemma_launched_by(g: GameModel, player: i64, orders: Seq<Order>)
    ensures
        ({
            let w = launched_all(g, player, orders);
            &&& g.fleets.is_prefix_of(w.fleets)
            &&& forall|i: int|
                g.fleets.len() <= i < w.fleets.len() ==> exists|k: int|
                    0 <= k < orders.len() && (#[trigger] w.fleets[i]).owner == player && (#[trigger] orders[k]).from_id
                        == w.fleets[i].from_planet_id && orders[k].ships == w.fleets[i].ships && orders[k].angle
                        == w.fleets[i].angle
        }),
    decreases orders.len(),
{
    let w = launched_all(g, player, orders);
    if orders.len() > 0 {
        let front = orders.drop_last();
        lemma_launched_by(g, player, front);
        let v = launched_all(g, player, front);
        assert forall|i: int| 0 <= i < g.fleets.len() implies g.fleets[i] == w.fleets[i] by {
            assert(g.fleets[i] == v.fleets.subrange(0, g.fleets.len() as int)[i]);
            assert(v.fleets[i] == w.fleets[i]);
        }
        assert(g.fleets =~= w.fleets.subrange(0, g.fleets.len() as int));
        assert forall|i: int| g.fleets.len() <= i < w.fleets.len() implies exists|k: int|
            0 <= k < orders.len() && (#[trigger] w.fleets[i]).owner == player && (#[trigger] orders[k]).from_id
                == w.fleets[i].from_planet_id && orders[k].ships == w.fleets[i].ships && orders[k].angle
                == w.fleets[i].angle by {
            if i < v.fleets.len() {
                assert(w.fleets[i] == v.fleets[i]);
                let k = choose|k: int|
                    0 <= k < front.len() && (#[trigger] front[k]).from_id == v.fleets[i].from_planet_id && front[k].ships
                        == v.fleets[i].ships && front[k].angle == v.fleets[i].angle;
                assert(orders[k] == front[k]);
            } else {
                assert(orders[orders.len() - 1].from_id == w.fleets[i].from_planet_id);
            }
        }
    } else {
        assert(g.fleets =~= w.fleets.subrange(0, g.fleets.len() as int));
    }
}

/// The fleets that were there stay, and every new one carries out an order that its
/// owner gave: nobody launches for another.
pub proof fn lemma_launches(g: GameModel, actions: Seq<Vec<Order>>)
    requires
        actions.len() <= i64::MAX,
    ensures
        g.fleets.is_prefix_of(after_launch(g, actions).fleets),
        forall|i: int|
            g.fleets.len() <= i < after_launch(g, actions).fleets.len() ==> ordered(
                actions,
                #[trigger] after_launch(g, actions).fleets[i],
            ),
    decreases actions.len(),
{
    let w = after_launch(g, actions);
    if actions.len() > 0 {
        let front = actions.drop_last();
        let last = actions.len() - 1;
        lemma_launches(g, front);
        let v = after_launch(g, front);
        lemma_launched_by(v, last as i64, actions[last]@);
        assert forall|i: int| 0 <= i < g.fleets.len() implies g.fleets[i] == w.fleets[i] by {
            assert(g.fleets[i] == v.fleets.subrange(0, g.fleets.len() as int)[i]);
            assert(v.fleets[i] == w.fleets.subrange(0, v.fleets.len() as int)[i]);
        }
        assert(g.fleets =~= w.fleets.subrange(0, g.fleets.len() as int));
        assert forall|i: int| g.fleets.len() <= i < w.fleets.len() implies ordered(actions, #[trigger] w.fleets[i]) by {
            if i < v.fleets.len() {
                assert(v.fleets[i] == w.fleets.subrange(0, v.fleets.len() as int)[i]);
                assert(ordered(front, v.fleets[i]));
                let (p, k) = choose|p: int, k: int|
                    0 <= p < front.len() && 0 <= k < front[p]@.len() && v.fleets[i].owner == p && (
                    #[trigger] front[p]@[k]).from_id == v.fleets[i].from_planet_id && front[p]@[k].ships
                        == v.fleets[i].ships && front[p]@[k].angle == v.fleets[i].angle;
                assert(actions[p]@[k] == front[p]@[k]);
            } else {
                let orders = actions[last]@;
                let k = choose|k: int|
                    0 <= k < orders.len() && (#[trigger] orders[k]).from_id == w.fleets[i].from_planet_id
                        && orders[k].ships == w.fleets[i].ships && orders[k].angle == w.fleets[i].angle;
                assert(w.fleets[i].owner == last);
                assert(actions[last]@[k] == orders[k]);
            }
        }
    } else {
        assert(g.fleets =~= w.fleets.subrange(0, g.fleets.len() as int));
    }
}

/// Orders of all players together.
pub open spec fn order_count(actions: Seq<Vec<Order>>) -> nat
    decreases actions.len(),
{
    if actions.len() == 0 {
        0
    } else {
        order_count(actions.drop_last()) + actions.last()@.len()
    }
}

/// Carries out the orders of all players: `actions[p]` are those of player `p`.
/// Orders from planets that the player does not hold, or with more ships than
/// are there, do nothing.
pub fn launch_fleets(g: &mut GameState, actions: &Vec<Vec<Order>>)
    requires
        old(g)@.valid(),
        old(g)@.next_fleet_id + order_count(actions@) <= i64::MAX,
    ensures
        final(g)@ == after_launch(old(g)@, actions@),
        final(g)@.valid(),
{
    let ghost start = g@;
    let mut player: usize = 0;
    assert(actions@.take(0) =~= Seq::<Vec<Order>>::empty());
    while player < actions.len()
        invariant
            player <= actions@.len(),
            g@ == after_launch(start, actions@.take(player as int)),
            g@.valid(),
            g@.next_fleet_id <= start.next_fleet_id + order_count(actions@.take(player as int)),
            start.next_fleet_id + order_count(actions@) <= i64::MAX,
        decreases actions@.len() - player,
    {
        let orders = &actions[player];
        let ghost mid = g@;
        proof {
            assert(actions@.take(player + 1).drop_last() =~= actions@.take(player as int));
            lemma_order_count(actions@, player + 1);
        }
        let mut k: usize = 0;
        assert(orders@.take(0) =~= Seq::<Order>::empty());
        while k < orders.len()
            invariant
                k <= orders@.len(),
                g@ == launched_all(mid, player as i64, orders@.take(k as int)),
                g@.valid(),
                g@.next_fleet_id <= mid.next_fleet_id + k,
                mid.next_fleet_id + orders@.len() <= i64::MAX,
            decreases orders@.len() - k,
        {
            let ghost before = g@;
            let o = orders[k];
            assert(orders@.take(k + 1).drop_last() =~= orders@.take(k as int));
            match find_planet(&g.planets, o.from_id) {
                Some(i) => {
                    proof {
                        crate::state::lemma_planet_index(g@.planets, o.from_id);
                    }
                    let p = g.planets[i];
                    if p.owner == player as i64 && p.ships >= o.ships && o.ships > 0 {
                        let left = Planet { ships: p.ships - o.ships, ..p };
                        g.planets[i] = left;
                        let fleet = Fleet {
                            id: g.next_fleet_id,
                            owner: player as i64,
                            x: o.start.x,
                            y: o.start.y,
                            angle: o.angle,
                            from_planet_id: o.from_id,
                            ships: o.ships,
                        };
                        g.fleets.push(fleet);
                        g.next_fleet_id = g.next_fleet_id + 1;
                    }
                },
                None => {},
            }
            assert(g@ =~= launched(before, player as i64, o));
            proof {
                lemma_launched_valid(before, player as i64, o);
            }
            k += 1;
        }
        assert(orders@.take(k as int) =~= orders@);
        player += 1;
    }
    assert(actions@.take(player as int) =~= actions@);
}

proof fn lemma_order_count(actions: Seq<Vec<Order>>, n: int)
    requires
        0 <= n <= actions.len(),
    ensures
        order_count(actions.take(n)) <= order_count(actions),
    decreases actions.len(),
{
    if n < actions.len() {
        lemma_order_count(actions.drop_last(), n);
        assert(actions.drop_last().take(n) =~= actions.take(n));
    } else {
        assert(actions.take(n) =~= actions);
    }
}

pub proof fn lemma_launched_valid(g: GameModel, player: i64, o: Order)
    requires
        g.valid(),
    ensures
        launched(g, player, o).valid(),
{
    let w = launched(g, player, o);
    crate::state::lemma_planet_index(g.planets, o.from_id);
    assert forall|i: int| 0 <= i < w.planets.len() implies (#[trigger] w.planets[i]).ships >= 0
        && w.planets[i].production >= 0 && w.planets[i].id == w.initial_planets[i].id by {
        assert(g.planets[i].id == g.initial_planets[i].id);
        assert(g.planets[i].ships >= 0);
    }
    assert forall|i: int| 0 <= i < w.fleets.len() implies (#[trigger] w.fleets[i]).ships >= 0 by {
        if i < g.fleets.len() {
            assert(w.fleets[i] == g.fleets[i]);
        }
    }
}

/// A planet after production: what it makes is added where somebody holds it.
pub open spec fn grown(p: Planet) -> Planet {
    if p.owner != -1 {
        Planet { ships: (p.ships + p.production) as i64, ..p }
    } else {
        p
    }
}

/// The planets after production.
pub open spec fn after_production(planets: Seq<Planet>) -> Seq<Planet> {
    Seq::new(planets.len(), |i: int| grown(planets[i]))
}

/// Adds what each planet makes to its ships, where somebody holds it.
pub fn produce(g: &mut GameState)
    requires
        old(g)@.valid(),
        forall|i: int|
            0 <= i < old(g)@.planets.len() && (#[trigger] old(g)@.planets[i]).owner != -1 ==> old(g)@.planets[i].ships
                + old(g)@.planets[i].production <= i64::MAX,
    ensures
        final(g)@ == (GameModel { planets: after_production(old(g)@.planets), ..old(g)@ }),
        final(g)@.valid(),
        final(g)@.planets.len() == old(g)@.planets.len(),
        forall|i: int|
            0 <= i < old(g)@.planets.len() && (#[trigger] old(g)@.planets[i]).owner == -1 ==> final(g)@.planets[i]
                == old(g)@.planets[i],
        forall|i: int|
            0 <= i < old(g)@.planets.len() && (#[trigger] old(g)@.planets[i]).owner != -1 ==> final(g)@.planets[i].ships
                == old(g)@.planets[i].ships + old(g)@.planets[i].production && final(g)@.planets[i].owner
                == old(g)@.planets[i].owner && final(g)@.planets[i].id == old(g)@.planets[i].id
                && final(g)@.planets[i].production == old(g)@.planets[i].production,
{
    let ghost start = g@;
    let mut i: usize = 0;
    while i < g.planets.len()
        invariant
            i <= g.planets@.len(),
            start == old(g)@,
            start.valid(),
            g@ == (GameModel { planets: g@.planets, ..start }),
            g@.planets.len() == start.planets.len(),
            forall|j: int| 0 <= j < i ==> #[trigger] g@.planets[j] == grown(start.planets[j]),
            forall|j: int| i <= j < start.planets.len() ==> #[trigger] g@.planets[j] == start.planets[j],
            forall|j: int|
                0 <= j < start.planets.len() && (#[trigger] start.planets[j]).owner != -1 ==> start.planets[j].ships
                    + start.planets[j].production <= i64::MAX,
        decreases g.planets@.len() - i,
    {
        let p = g.planets[i];
        assert(p == start.planets[i as int]);
        if p.owner != NEUTRAL {
            let more = Planet { ships: p.ships + p.production, ..p };
            g.planets[i] = more;
        }
        i += 1;
    }
    assert(g@.planets =~= after_production(start.planets));
    assert forall|j: int| 0 <= j < g@.planets.len() implies (#[trigger] g@.planets[j]).ships >= 0
        && g@.planets[j].production >= 0 && g@.planets[j].id == g@.initial_planets[j].id by {
        assert(start.planets[j].ships >= 0);
        assert(start.planets[j].id == start.initial_planets[j].id);
    }
}

} // verus!
