//! A turn of the planner, from the projection of the garrisons to its orders.
//!
//! A turn is five calls: `plan_attack`, `attack`, `plan_regroup`,
//! `regroup_options` and `regroup_moves`. Before each the caller computes what is
//! to be measured: distances, shots, pressures, and what the moves between own
//! planets are worth.

use crate::double::Double;
use crate::flow::GarrisonStatus;
use crate::planner::{
    all_targets, defensive_targets, launch_requests, offensive_targets, ranked_sources, select_waves, weigh,
    ProducerLiteConfig, Request, Selection, Shot,
};
use crate::regroup::{regroup_destinations, regroup_requests, regroup_sources, RegroupOption};
use crate::state::{GameState, Move};
use vstd::prelude::*;

verus! {

use crate::planner::Candidate;
use crate::state::GameModel;

/// The least number of ships that is launched.
pub open spec fn least_launch(c: ProducerLiteConfig) -> i64 {
    c.min_ships_to_launch.truncation() as i64
}

/// The targets of the attack: the nearest planets that can be attacked, and the
/// own ones that are most urgent to defend.
pub open spec fn attack_targets(
    g: GameModel,
    status: GarrisonStatus,
    distances: Seq<Double>,
    player: i64,
    c: ProducerLiteConfig,
) -> Seq<usize> {
    crate::planner::merged(
        crate::ranking::best(
            crate::planner::attackable(g, player, distances, g.planets.len()),
            c.max_offensive_targets as nat,
        ),
        crate::ranking::best(
            crate::planner::threatened(status, crate::planner::held(g.planets, player), player),
            c.max_defensive_targets as nat,
        ),
    )
}

/// The sources of the attack: the own planets with the most ships.
pub open spec fn attack_sources(g: GameModel, player: i64, c: ProducerLiteConfig) -> Seq<usize> {
    crate::ranking::best(
        crate::planner::by_ships(g.planets, crate::planner::held(g.planets, player)),
        c.max_sources_per_lane as nat,
    )
}

/// The launches to aim for the attack.
pub open spec fn attack_list(
    g: GameModel,
    status: GarrisonStatus,
    distances: Seq<Double>,
    player: i64,
    c: ProducerLiteConfig,
) -> Seq<Request> {
    crate::planner::requests(
        status,
        attack_sources(g, player, c),
        attack_targets(g, status, distances, player, c),
        player,
        least_launch(c),
    )
}

/// The first `k` targets are planets to attack, no more than may be, and all that
/// there are where there are fewer; the others are own planets that fall within the
/// horizon, no more of them than may be, and all that there are where there are fewer.
pub open spec fn split_at(
    g: GameModel,
    status: GarrisonStatus,
    player: i64,
    c: ProducerLiteConfig,
    t: Seq<usize>,
    k: int,
) -> bool {
    &&& 0 <= k <= t.len()
    &&& k <= c.max_offensive_targets
    &&& t.len() - k <= c.max_defensive_targets
    &&& forall|j: int|
        0 <= j < k ==> (#[trigger] t[j]) < g.planets.len() && g.planets[t[j] as int].owner != player
            && !g.comet_planet_ids.contains(g.planets[t[j] as int].id)
    &&& forall|j: int|
        k <= j < t.len() ==> (#[trigger] t[j]) < g.planets.len() && g.planets[t[j] as int].owner == player && exists|
            u: int,
        |
            crate::planner::falls_at(status, t[j] as int, player, u)
    &&& forall|i: int|
        0 <= i < g.planets.len() && (#[trigger] g.planets[i]).owner != player && !g.comet_planet_ids.contains(
            g.planets[i].id,
        ) ==> k == c.max_offensive_targets || t.contains(i as usize)
    &&& forall|i: int, u: int|
        0 <= i < g.planets.len() && g.planets[i].owner == player && #[trigger] crate::planner::falls_at(
            status,
            i,
            player,
            u,
        ) ==> t.len() - k == c.max_defensive_targets || t.contains(i as usize)
}

/// The targets of the attack are planets to attack and then own planets to defend, as
/// many of each as the settings allow. No planet is a target twice.
pub proof fn lemma_attack_targets(
    g: GameModel,
    status: GarrisonStatus,
    distances: Seq<Double>,
    player: i64,
    c: ProducerLiteConfig,
)
    requires
        crate::garrison::describes(status, g),
        g.planets.len() <= usize::MAX,
    ensures
        exists|k: int| #[trigger]
            split_at(g, status, player, c, attack_targets(g, status, distances, player, c), k),
        attack_targets(g, status, distances, player, c).no_duplicates(),
{
    let items = crate::planner::attackable(g, player, distances, g.planets.len());
    let risks = crate::planner::threatened(status, crate::planner::held(g.planets, player), player);
    let off = crate::ranking::best(items, c.max_offensive_targets as nat);
    let def = crate::ranking::best(risks, c.max_defensive_targets as nat);
    let t = attack_targets(g, status, distances, player, c);
    let k = off.len() as int;
    crate::planner::lemma_offensive(g, player, distances, c.max_offensive_targets as nat);
    crate::planner::lemma_offensive_once(g, player, distances, c.max_offensive_targets as nat);
    crate::planner::lemma_defensive(g, status, player, c.max_defensive_targets as nat);
    crate::planner::lemma_defensive_once(g, status, player, c.max_defensive_targets as nat);
    crate::planner::lemma_merged(off, def);
    lemma_merged_apart(off, def);
    assert(t =~= off + def);
    assert forall|j: int| 0 <= j < k implies #[trigger] t[j] == off[j] by {}
    assert forall|j: int| k <= j < t.len() implies #[trigger] t[j] == def[j - k] by {}
    assert forall|i: int|
        0 <= i < g.planets.len() && (#[trigger] g.planets[i]).owner != player && !g.comet_planet_ids.contains(
            g.planets[i].id,
        ) implies k == c.max_offensive_targets || t.contains(i as usize) by {
        if off.contains(i as usize) {
            let j = choose|j: int| 0 <= j < off.len() && off[j] == i as usize;
            assert(t[j] == i as usize);
        }
    }
    assert(split_at(g, status, player, c, t, k));
    assert forall|i: int, j: int| 0 <= i < t.len() && 0 <= j < t.len() && i != j implies t[i] != t[j] by {
        if i < k && j < k {
            assert(off[i] != off[j]);
        } else if i >= k && j >= k {
            assert(def[i - k] != def[j - k]);
        } else if i < k {
            assert(g.planets[off[i] as int].owner != player);
            assert(g.planets[def[j - k] as int].owner == player);
        } else {
            assert(g.planets[off[j] as int].owner != player);
            assert(g.planets[def[i - k] as int].owner == player);
        }
    }
}

proof fn lemma_merged_apart(base: Seq<usize>, more: Seq<usize>)
    requires
        forall|j: int, k: int| 0 <= j < base.len() && 0 <= k < more.len() ==> #[trigger] base[j] != #[trigger] more[k],
        forall|j: int, k: int| 0 <= j < k < more.len() ==> #[trigger] more[j] != #[trigger] more[k],
    ensures
        crate::planner::merged(base, more) == base + more,
    decreases more.len(),
{
    if more.len() > 0 {
        let before = more.drop_last();
        lemma_merged_apart(base, before);
        let front = base + before;
        assert(!front.contains(more.last())) by {
            if front.contains(more.last()) {
                let i = choose|i: int| 0 <= i < front.len() && front[i] == more.last();
                if i < base.len() {
                    assert(base[i] != more[more.len() - 1]);
                } else {
                    assert(more[i - base.len()] != more[more.len() - 1]);
                }
            }
        }
        assert(front.push(more.last()) =~= base + more);
    } else {
        assert(base + more =~= base);
    }
}

/// The sources of the attack are own planets, as many as the settings allow, those with
/// the most ships first.
pub proof fn lemma_attack_sources(g: GameModel, player: i64, c: ProducerLiteConfig)
    requires
        g.planets.len() <= usize::MAX,
    ensures
        ({
            let r = attack_sources(g, player, c);
            &&& r.len() <= c.max_sources_per_lane
            &&& forall|k: int|
                0 <= k < r.len() ==> (#[trigger] r[k]) < g.planets.len() && g.planets[r[k] as int].owner == player
            &&& forall|i: int|
                0 <= i < g.planets.len() && (#[trigger] g.planets[i]).owner == player ==> r.len()
                    == c.max_sources_per_lane || r.contains(i as usize)
            &&& forall|i: int, j: int|
                0 <= i < g.planets.len() && 0 <= j < g.planets.len() && (#[trigger] g.planets[i]).owner == player && (
                #[trigger] g.planets[j]).owner == player && g.planets[i].ships > g.planets[j].ships
                    ==> crate::ranking::leads(r, i as usize, j as usize)
        }),
{
    crate::planner::lemma_sources(g.planets, player, c.max_sources_per_lane as nat);
}

/// A launch is aimed for the attack just where it goes from one of the sources at one
/// of the targets, with all that the source can safely spare, which is not less than
/// the least launch, the whole number that the setting comes down to.
pub proof fn lemma_attack_list_all(
    g: GameModel,
    status: GarrisonStatus,
    distances: Seq<Double>,
    player: i64,
    c: ProducerLiteConfig,
)
    requires
        crate::garrison::describes(status, g),
        g.planets.len() <= usize::MAX,
    ensures
        forall|x: Request|
            #[trigger] attack_list(g, status, distances, player, c).contains(x) <==> attack_sources(
                g,
                player,
                c,
            ).contains(x.src) && attack_targets(g, status, distances, player, c).contains(x.tgt) && x.src != x.tgt
                && x.ships == crate::planner::spare(status, x.src as int, player) && x.ships
                >= c.min_ships_to_launch.truncation(),
{
    lemma_attack_sources(g, player, c);
    crate::planner::lemma_requests_all(
        status,
        attack_sources(g, player, c),
        attack_targets(g, status, distances, player, c),
        player,
        least_launch(c),
    );
    crate::double::lemma_truncation_bounds(c.min_ships_to_launch);
}

/// Lists the launches to aim for the attack of `player`. `distances[i]` is the
/// distance of planet `i` from the planets that can launch.
pub fn plan_attack(
    g: &GameState,
    status: &GarrisonStatus,
    distances: &Vec<Double>,
    player: i64,
    c: &ProducerLiteConfig,
) -> (r: Vec<Request>)
    requires
        crate::garrison::describes(*status, g@),
        0 <= player,
        player <= usize::MAX,
        distances@.len() == g@.planets.len(),
    ensures
        r@ == attack_list(g@, *status, distances@, player, *c),
        forall|k: int| 0 <= k < r@.len() ==> #[trigger] crate::planner::proper(g@, player, r@[k]),
{
    let offensive = offensive_targets(g, player, distances, c.max_offensive_targets);
    let defensive = defensive_targets(g, status, player, c.max_defensive_targets);
    let tgts = all_targets(&offensive, &defensive);
    assert forall|k: int| 0 <= k < tgts@.len() implies (#[trigger] tgts@[k]) < g@.planets.len() by {
        if offensive@.contains(tgts@[k]) {
            let j = choose|j: int| 0 <= j < offensive@.len() && offensive@[j] == tgts@[k];
            assert(offensive@[j] < g@.planets.len());
        } else {
            let j = choose|j: int| 0 <= j < defensive@.len() && defensive@[j] == tgts@[k];
            assert(defensive@[j] < g@.planets.len());
        }
    }
    let srcs = ranked_sources(g, player, c.max_sources_per_lane);
    launch_requests(g, status, &srcs, &tgts, player, c.min_ships_to_launch.truncated())
}

/// The launches that the attack makes, of those that were aimed.
pub open spec fn attack_picks(
    g: GameModel,
    status: GarrisonStatus,
    requests: Seq<Request>,
    shots: Seq<Shot>,
    player: i64,
    c: ProducerLiteConfig,
) -> Seq<Candidate> {
    crate::planner::waves(
        g,
        player,
        crate::planner::candidates(status, requests, shots, player, c.roi_threshold, requests.len()),
        c.max_waves_per_turn as nat,
    )
}

/// The launches that the attack makes are worth making by the settings, no more than
/// may be, the better ones first; and one that is worth making and is not made is shut
/// out by others that are no worse.
pub proof fn lemma_attack_picks(
    g: GameModel,
    status: GarrisonStatus,
    requests: Seq<Request>,
    shots: Seq<Shot>,
    player: i64,
    c: ProducerLiteConfig,
)
    requires
        crate::tick::manned(g.planets),
        crate::garrison::describes(status, g),
        0 <= player,
        requests.len() <= usize::MAX,
        shots.len() == requests.len(),
        crate::planner::in_time(shots, status.h as nat),
        forall|k: int| 0 <= k < requests.len() ==> #[trigger] crate::planner::proper(g, player, requests[k]),
    ensures
        ({
            let w = attack_picks(g, status, requests, shots, player, c);
            &&& w.len() <= c.max_waves_per_turn
            &&& forall|q: int|
                0 <= q < w.len() ==> crate::planner::comes_from_one(
                    status,
                    #[trigger] w[q],
                    requests,
                    shots,
                    player,
                    c.roi_threshold,
                    requests.len(),
                )
            &&& forall|j: int, k: int| 0 <= j < k < w.len() ==> (#[trigger] w[j]).score >= (#[trigger] w[k]).score
            &&& forall|k: int, x: Candidate|
                0 <= k < requests.len() && #[trigger] crate::planner::stands_for(
                    status,
                    x,
                    requests[k],
                    shots[k],
                    player,
                    c.roi_threshold,
                ) ==> w.contains(x) || crate::planner::beaten(g, w, x, c.max_waves_per_turn as nat)
        }),
{
    let n = requests.len();
    let cands = crate::planner::candidates(status, requests, shots, player, c.roi_threshold, n);
    let w = attack_picks(g, status, requests, shots, player, c);
    crate::planner::lemma_candidates(g, status, requests, shots, player, c.roi_threshold, n);
    crate::planner::lemma_weighed(g, status, requests, shots, player, c.roi_threshold, n);
    lemma_candidates_len(status, requests, shots, player, c.roi_threshold, n);
    crate::planner::lemma_waves(g, player, cands, c.max_waves_per_turn as nat);
    assert forall|q: int| 0 <= q < w.len() implies crate::planner::comes_from_one(
        status,
        #[trigger] w[q],
        requests,
        shots,
        player,
        c.roi_threshold,
        n,
    ) by {
        assert(cands.contains(w[q]));
        let j = choose|j: int| 0 <= j < cands.len() && cands[j] == w[q];
        assert(crate::planner::comes_from_one(status, cands[j], requests, shots, player, c.roi_threshold, n));
    }
    assert forall|k: int, x: Candidate|
        0 <= k < requests.len() && #[trigger] crate::planner::stands_for(
            status,
            x,
            requests[k],
            shots[k],
            player,
            c.roi_threshold,
        ) implies w.contains(x) || crate::planner::beaten(g, w, x, c.max_waves_per_turn as nat) by {
        assert(cands.contains(x));
        let j = choose|j: int| 0 <= j < cands.len() && cands[j] == x;
    }
}

proof fn lemma_candidates_len(
    status: GarrisonStatus,
    requests: Seq<Request>,
    shots: Seq<Shot>,
    player: i64,
    roi: Double,
    n: nat,
)
    ensures
        crate::planner::candidates(status, requests, shots, player, roi, n).len() <= n,
    decreases n,
{
    if n > 0 {
        lemma_candidates_len(status, requests, shots, player, roi, (n - 1) as nat);
    }
}

/// Picks the launches of the attack from those that were aimed: `shots[k]` is
/// launch `k`, aimed.
pub fn attack(
    g: &GameState,
    status: &GarrisonStatus,
    requests: &Vec<Request>,
    shots: &Vec<Shot>,
    player: i64,
    c: &ProducerLiteConfig,
) -> (s: Selection)
    requires
        crate::tick::manned(g@.planets),
        crate::garrison::describes(*status, g@),
        0 <= player,
        shots@.len() == requests@.len(),
        crate::planner::in_time(shots@, status.h as nat),
        forall|k: int| 0 <= k < requests@.len() ==> #[trigger] crate::planner::proper(g@, player, requests@[k]),
    ensures
        s.moves@ == crate::planner::orders_of(g@, attack_picks(g@, *status, requests@, shots@, player, *c)),
        s.committed@ == crate::planner::committed_by(
            attack_picks(g@, *status, requests@, shots@, player, *c),
            g@.planets.len(),
        ),
        forall|i: int| 0 <= i < g@.planets.len() ==> 0 <= #[trigger] s.committed@[i] <= g@.planets[i].ships,
{
    let cands = weigh(g, status, requests, shots, player, c.roi_threshold);
    select_waves(g, player, &cands, c.max_waves_per_turn)
}

/// The planets that send ships to regroup.
pub open spec fn regroup_from(g: GameModel, player: i64, committed: Seq<i64>, c: ProducerLiteConfig) -> Seq<usize> {
    if c.enable_regroup {
        crate::ranking::best(
            crate::regroup::leftovers(
                g.planets,
                crate::planner::held(g.planets, player),
                committed,
                least_launch(c),
            ),
            c.max_regroup_sources_per_lane as nat,
        )
    } else {
        Seq::empty()
    }
}

/// The moves between own planets to aim.
pub open spec fn regroup_list(
    g: GameModel,
    status: GarrisonStatus,
    pressures: Seq<Double>,
    player: i64,
    committed: Seq<i64>,
    c: ProducerLiteConfig,
) -> Seq<Request> {
    crate::regroup::regroupings(
        g,
        status,
        regroup_from(g, player, committed, c),
        crate::ranking::best(
            crate::regroup::pressed(g, crate::planner::held(g.planets, player), pressures),
            c.max_regroup_targets_per_source as nat,
        ),
        player,
        committed,
        least_launch(c),
    )
}

/// Where the settings do not have it, nothing is regrouped. Else a move is aimed just
/// where it goes from one of the sources, which are as many as the settings allow, to
/// another planet among the destinations, of which there are as many as the settings
/// allow; it sends the most that it can, which is not less than the least launch.
pub proof fn lemma_regroup_list_all(
    g: GameModel,
    status: GarrisonStatus,
    pressures: Seq<Double>,
    player: i64,
    committed: Seq<i64>,
    c: ProducerLiteConfig,
)
    requires
        g.planets.len() <= usize::MAX,
        committed.len() == g.planets.len(),
        forall|i: int| 0 <= i < g.planets.len() ==> 0 <= #[trigger] committed[i] <= g.planets[i].ships,
    ensures
        !c.enable_regroup ==> regroup_from(g, player, committed, c).len() == 0 && regroup_list(
            g,
            status,
            pressures,
            player,
            committed,
            c,
        ).len() == 0,
        c.enable_regroup ==> ({
            let r = regroup_from(g, player, committed, c);
            &&& r.len() <= c.max_regroup_sources_per_lane
            &&& forall|i: int|
                0 <= i < g.planets.len() && (#[trigger] g.planets[i]).owner == player && g.planets[i].ships - committed[i]
                    >= c.min_ships_to_launch.truncation() ==> r.len() == c.max_regroup_sources_per_lane || r.contains(
                    i as usize,
                )
            &&& forall|k: int|
                0 <= k < r.len() ==> (#[trigger] r[k]) < g.planets.len() && g.planets[r[k] as int].owner == player
                    && g.planets[r[k] as int].ships - committed[r[k] as int] >= c.min_ships_to_launch.truncation()
        }),
        exists|dsts: Seq<usize>|
            #![auto]
            {
                &&& dsts.len() <= c.max_regroup_targets_per_source
                &&& forall|k: int|
                    0 <= k < dsts.len() ==> (#[trigger] dsts[k]) < g.planets.len() && crate::regroup::is_home(
                        g,
                        player,
                        dsts[k] as int,
                    )
                &&& forall|i: int|
                    0 <= i < g.planets.len() && #[trigger] crate::regroup::is_home(g, player, i) ==> dsts.len()
                        == c.max_regroup_targets_per_source || dsts.contains(i as usize)
                &&& forall|x: Request|
                    #[trigger] regroup_list(g, status, pressures, player, committed, c).contains(x) <==> regroup_from(
                        g,
                        player,
                        committed,
                        c,
                    ).contains(x.src) && dsts.contains(x.tgt) && x.src != x.tgt && x.ships
                        >= c.min_ships_to_launch.truncation() && crate::regroup::sends_most(
                        g,
                        status,
                        x,
                        player,
                        committed,
                    )
            },
{
    let srcs = regroup_from(g, player, committed, c);
    let dsts = crate::ranking::best(
        crate::regroup::pressed(g, crate::planner::held(g.planets, player), pressures),
        c.max_regroup_targets_per_source as nat,
    );
    crate::double::lemma_truncation_bounds(c.min_ships_to_launch);
    crate::regroup::lemma_destinations(g, player, pressures, c.max_regroup_targets_per_source as nat);
    crate::regroup::lemma_regroup_sources(
        g.planets,
        player,
        committed,
        least_launch(c),
        c.max_regroup_sources_per_lane as nat,
    );
    lemma_regroup_from(g, player, committed, c);
    crate::regroup::lemma_regroupings_all(g, status, srcs, dsts, player, committed, least_launch(c));
    assert forall|i: int| 0 <= i < g.planets.len() && #[trigger] crate::regroup::is_home(g, player, i) implies dsts.len()
        == c.max_regroup_targets_per_source || dsts.contains(i as usize) by {
        assert(g.planets[i].owner == player);
    }
    assert forall|x: Request|
        #[trigger] regroup_list(g, status, pressures, player, committed, c).contains(x) <==> srcs.contains(x.src)
            && dsts.contains(x.tgt) && x.src != x.tgt && x.ships >= c.min_ships_to_launch.truncation()
            && crate::regroup::sends_most(g, status, x, player, committed) by {}
}

/// Moves between own planets to aim, and the planets that they go from.
pub struct RegroupPlan {
    pub srcs: Vec<usize>,
    pub requests: Vec<Request>,
}

/// Lists the moves between own planets to aim, once the attack has committed
/// ships. `pressures[i]` is the pressure of the enemies on planet `i`.
pub fn plan_regroup(
    g: &GameState,
    status: &GarrisonStatus,
    pressures: &Vec<Double>,
    player: i64,
    committed: &Vec<i64>,
    c: &ProducerLiteConfig,
) -> (r: RegroupPlan)
    requires
        crate::garrison::describes(*status, g@),
        0 <= player,
        player <= usize::MAX,
        pressures@.len() == g@.planets.len(),
        committed@.len() == g@.planets.len(),
        forall|i: int| 0 <= i < g@.planets.len() ==> 0 <= #[trigger] committed@[i] <= g@.planets[i].ships,
    ensures
        r.srcs@ == regroup_from(g@, player, committed@, *c),
        r.requests@ == regroup_list(g@, *status, pressures@, player, committed@, *c),
        forall|k: int| 0 <= k < r.srcs@.len() ==> (#[trigger] r.srcs@[k]) < g@.planets.len(),
        forall|k: int|
            0 <= k < r.requests@.len() ==> #[trigger] crate::regroup::affords(
                g@,
                player,
                committed@,
                least_launch(*c),
                r.requests@[k],
            ),
{
    let min: i64 = c.min_ships_to_launch.truncated();
    let srcs = if c.enable_regroup {
        regroup_sources(g, player, committed, min, c.max_regroup_sources_per_lane)
    } else {
        Vec::new()
    };
    assert(srcs@ =~= regroup_from(g@, player, committed@, *c));
    let dsts = regroup_destinations(g, player, pressures, c.max_regroup_targets_per_source);
    let requests = regroup_requests(g, status, &srcs, &dsts, player, committed, min);
    RegroupPlan { srcs, requests }
}

/// The moves between own planets that can be made, of those that were aimed.
pub open spec fn regroup_choice(
    status: GarrisonStatus,
    requests: Seq<Request>,
    gaps: Seq<Double>,
    shots: Seq<Shot>,
    player: i64,
    c: ProducerLiteConfig,
) -> Seq<RegroupOption> {
    crate::regroup::options(
        status,
        requests,
        gaps,
        shots,
        player,
        c.regroup_pressure_delta_min,
        c.max_regroup_time,
        requests.len(),
    )
}

/// The moves that can be made to regroup are those that the settings allow: towards a
/// pressure that is higher by more than they ask for, and within their time.
pub proof fn lemma_regroup_choice(
    status: GarrisonStatus,
    requests: Seq<Request>,
    gaps: Seq<Double>,
    shots: Seq<Shot>,
    player: i64,
    c: ProducerLiteConfig,
)
    requires
        status.valid(),
        gaps.len() == requests.len(),
        shots.len() == requests.len(),
        crate::planner::in_time(shots, status.h as nat),
        forall|k: int| 0 <= k < requests.len() ==> (#[trigger] requests[k]).tgt < status.p,
    ensures
        ({
            let all = regroup_choice(status, requests, gaps, shots, player, c);
            &&& forall|q: int|
                0 <= q < all.len() ==> crate::regroup::comes_from_one(
                    status,
                    #[trigger] all[q],
                    requests,
                    gaps,
                    shots,
                    player,
                    c.regroup_pressure_delta_min,
                    c.max_regroup_time,
                    requests.len(),
                )
            &&& forall|k: int, o: RegroupOption|
                0 <= k < requests.len() && #[trigger] crate::regroup::stands_for(
                    status,
                    o,
                    requests[k],
                    gaps[k],
                    shots[k],
                    player,
                    c.regroup_pressure_delta_min,
                    c.max_regroup_time,
                ) ==> all.contains(o)
        }),
{
    crate::regroup::lemma_options_all(
        status,
        requests,
        gaps,
        shots,
        player,
        c.regroup_pressure_delta_min,
        c.max_regroup_time,
        requests.len(),
    );
}

/// What is measured in a turn: the distances of the planets, the attack as it is
/// aimed, the pressures on the planets and between them, the moves to regroup as
/// they are aimed, and what these are worth.
pub struct Readings {
    pub distances: Seq<Double>,
    pub shots: Seq<Shot>,
    pub pressures: Seq<Double>,
    pub gaps: Seq<Double>,
    pub returns: Seq<Shot>,
    pub scores: Seq<Double>,
}

/// The orders of `player` in a turn: those of the attack, and those to regroup.
pub open spec fn turn_orders(
    g: GameModel,
    status: GarrisonStatus,
    player: i64,
    c: ProducerLiteConfig,
    x: Readings,
) -> Seq<Move> {
    let picks = attack_picks(g, status, attack_list(g, status, x.distances, player, c), x.shots, player, c);
    let committed = crate::planner::committed_by(picks, g.planets.len());
    let back = regroup_list(g, status, x.pressures, player, committed, c);
    crate::planner::orders_of(g, picks) + crate::regroup::regroup_orders(
        g,
        regroup_from(g, player, committed, c),
        regroup_choice(status, back, x.gaps, x.returns, player, c),
        x.scores,
    )
}

proof fn lemma_held_listed(g: GameModel, player: i64, c: ProducerLiteConfig)
    requires
        g.planets.len() <= usize::MAX,
    ensures
        forall|k: int|
            0 <= k < attack_sources(g, player, c).len() ==> (#[trigger] attack_sources(g, player, c)[k])
                < g.planets.len() && g.planets[attack_sources(g, player, c)[k] as int].owner == player,
{
    let own = crate::planner::held(g.planets, player);
    let items = crate::planner::by_ships(g.planets, own);
    crate::planner::lemma_held(g.planets, player);
    crate::ranking::lemma_best(items, c.max_sources_per_lane as nat);
    let srcs = attack_sources(g, player, c);
    assert forall|k: int| 0 <= k < srcs.len() implies (#[trigger] srcs[k]) < g.planets.len()
        && g.planets[srcs[k] as int].owner == player by {
        assert(crate::ranking::listed(items, srcs[k]));
        let j = choose|j: int| 0 <= j < items.len() && (#[trigger] items[j]).idx == srcs[k];
        assert(own[j] == srcs[k]);
    }
}

proof fn lemma_attackable(g: GameModel, player: i64, distances: Seq<Double>, n: nat)
    requires
        n <= g.planets.len(),
        g.planets.len() <= usize::MAX,
    ensures
        forall|k: int|
            0 <= k < crate::planner::attackable(g, player, distances, n).len() ==> (
            #[trigger] crate::planner::attackable(g, player, distances, n)[k]).idx < g.planets.len(),
    decreases n,
{
    if n > 0 {
        lemma_attackable(g, player, distances, (n - 1) as nat);
        let front = crate::planner::attackable(g, player, distances, (n - 1) as nat);
        let all = crate::planner::attackable(g, player, distances, n);
        assert forall|k: int| 0 <= k < all.len() implies (#[trigger] all[k]).idx < g.planets.len() by {
            if k < front.len() {
                assert(all[k] == front[k]);
            }
        }
    }
}

proof fn lemma_threatened(status: GarrisonStatus, own: Seq<usize>, player: i64, top: nat)
    requires
        forall|k: int| 0 <= k < own.len() ==> (#[trigger] own[k]) < top,
    ensures
        forall|k: int|
            0 <= k < crate::planner::threatened(status, own, player).len() ==> (
            #[trigger] crate::planner::threatened(status, own, player)[k]).idx < top,
    decreases own.len(),
{
    if own.len() > 0 {
        let before = own.drop_last();
        assert forall|k: int| 0 <= k < before.len() implies (#[trigger] before[k]) < top by {
            assert(before[k] == own[k]);
        }
        lemma_threatened(status, before, player, top);
        let front = crate::planner::threatened(status, before, player);
        let all = crate::planner::threatened(status, own, player);
        assert(own[own.len() - 1] < top);
        assert forall|k: int| 0 <= k < all.len() implies (#[trigger] all[k]).idx < top by {
            if k < front.len() {
                assert(all[k] == front[k]);
            }
        }
    }
}

proof fn lemma_pressed(g: GameModel, own: Seq<usize>, pressures: Seq<Double>, top: nat)
    requires
        forall|k: int| 0 <= k < own.len() ==> (#[trigger] own[k]) < top,
    ensures
        forall|k: int|
            0 <= k < crate::regroup::pressed(g, own, pressures).len() ==> (#[trigger] crate::regroup::pressed(
                g,
                own,
                pressures,
            )[k]).idx < top,
    decreases own.len(),
{
    if own.len() > 0 {
        let before = own.drop_last();
        assert forall|k: int| 0 <= k < before.len() implies (#[trigger] before[k]) < top by {
            assert(before[k] == own[k]);
        }
        lemma_pressed(g, before, pressures, top);
        let front = crate::regroup::pressed(g, before, pressures);
        let all = crate::regroup::pressed(g, own, pressures);
        assert(own[own.len() - 1] < top);
        assert forall|k: int| 0 <= k < all.len() implies (#[trigger] all[k]).idx < top by {
            if k < front.len() {
                assert(all[k] == front[k]);
            }
        }
    }
}

proof fn lemma_best_below(items: Seq<crate::ranking::Ranked>, m: nat, top: nat)
    requires
        forall|k: int| 0 <= k < items.len() ==> (#[trigger] items[k]).idx < top,
    ensures
        forall|k: int| 0 <= k < crate::ranking::best(items, m).len() ==> (#[trigger] crate::ranking::best(items, m)[k]) < top,
{
    crate::ranking::lemma_best(items, m);
    let b = crate::ranking::best(items, m);
    assert forall|k: int| 0 <= k < b.len() implies (#[trigger] b[k]) < top by {
        assert(crate::ranking::listed(items, b[k]));
        let j = choose|j: int| 0 <= j < items.len() && (#[trigger] items[j]).idx == b[k];
        assert(items[j].idx < top);
    }
}

proof fn lemma_merged_below(base: Seq<usize>, more: Seq<usize>, top: nat)
    requires
        forall|k: int| 0 <= k < base.len() ==> (#[trigger] base[k]) < top,
        forall|k: int| 0 <= k < more.len() ==> (#[trigger] more[k]) < top,
    ensures
        forall|k: int|
            0 <= k < crate::planner::merged(base, more).len() ==> (#[trigger] crate::planner::merged(base, more)[k]) < top,
    decreases more.len(),
{
    if more.len() > 0 {
        let before = more.drop_last();
        assert forall|k: int| 0 <= k < before.len() implies (#[trigger] before[k]) < top by {
            assert(before[k] == more[k]);
        }
        lemma_merged_below(base, before, top);
        assert(more[more.len() - 1] < top);
        let front = crate::planner::merged(base, before);
        let all = crate::planner::merged(base, more);
        assert forall|k: int| 0 <= k < all.len() implies (#[trigger] all[k]) < top by {
            if k < front.len() {
                assert(all[k] == front[k]);
            }
        }
    }
}

/// The launches to aim for the attack are proper.
pub proof fn lemma_attack_list(
    g: GameModel,
    status: GarrisonStatus,
    distances: Seq<Double>,
    player: i64,
    c: ProducerLiteConfig,
)
    requires
        crate::garrison::describes(status, g),
        g.planets.len() <= usize::MAX,
    ensures
        forall|k: int|
            0 <= k < attack_list(g, status, distances, player, c).len() ==> #[trigger] crate::planner::proper(
                g,
                player,
                attack_list(g, status, distances, player, c)[k],
            ),
{
    let n = g.planets.len();
    let own = crate::planner::held(g.planets, player);
    lemma_held_listed(g, player, c);
    crate::planner::lemma_held(g.planets, player);
    lemma_attackable(g, player, distances, n);
    lemma_best_below(
        crate::planner::attackable(g, player, distances, n),
        c.max_offensive_targets as nat,
        n,
    );
    lemma_threatened(status, own, player, n);
    lemma_best_below(crate::planner::threatened(status, own, player), c.max_defensive_targets as nat, n);
    lemma_merged_below(
        crate::ranking::best(
            crate::planner::attackable(g, player, distances, n),
            c.max_offensive_targets as nat,
        ),
        crate::ranking::best(crate::planner::threatened(status, own, player), c.max_defensive_targets as nat),
        n,
    );
    crate::planner::lemma_requests(
        g,
        status,
        attack_sources(g, player, c),
        attack_targets(g, status, distances, player, c),
        player,
        least_launch(c),
    );
}

proof fn lemma_regroup_from(g: GameModel, player: i64, committed: Seq<i64>, c: ProducerLiteConfig)
    requires
        g.planets.len() <= usize::MAX,
    ensures
        crate::regroup::once_each(regroup_from(g, player, committed, c)),
        forall|k: int|
            0 <= k < regroup_from(g, player, committed, c).len() ==> (#[trigger] regroup_from(
                g,
                player,
                committed,
                c,
            )[k]) < g.planets.len() && g.planets[regroup_from(g, player, committed, c)[k] as int].owner == player,
{
    if c.enable_regroup {
        let own = crate::planner::held(g.planets, player);
        let items = crate::regroup::leftovers(g.planets, own, committed, least_launch(c));
        let m = c.max_regroup_sources_per_lane as nat;
        crate::planner::lemma_held(g.planets, player);
        crate::regroup::lemma_leftovers(g.planets, own, committed, least_launch(c));
        crate::ranking::lemma_best_apart(items, m);
        crate::ranking::lemma_best(items, m);
        let srcs = regroup_from(g, player, committed, c);
        assert forall|k: int| 0 <= k < srcs.len() implies (#[trigger] srcs[k]) < g.planets.len()
            && g.planets[srcs[k] as int].owner == player by {
            assert(crate::ranking::listed(items, srcs[k]));
            let j = choose|j: int| 0 <= j < items.len() && (#[trigger] items[j]).idx == srcs[k];
            assert(own.contains(items[j].idx));
            let i = choose|i: int| 0 <= i < own.len() && own[i] == srcs[k];
            assert(own[i] < g.planets.len());
        }
    }
}

proof fn lemma_asked_sum(a: Seq<Move>, b: Seq<Move>, id: i64)
    ensures
        crate::game::asked(a + b, id) == crate::game::asked(a, id) + crate::game::asked(b, id),
    decreases b.len(),
{
    if b.len() > 0 {
        lemma_asked_sum(a, b.drop_last(), id);
        assert((a + b).drop_last() =~= a + b.drop_last());
        assert((a + b).last() == b.last());
    } else {
        assert(a + b =~= a);
    }
}

/// Whatever is measured in a turn and whatever the settings, the player can afford
/// the orders: they go from its own planets, and together send no more from any
/// than are there. Where the least launch is of one ship or more, every order
/// sends ships.
pub proof fn lemma_turn_affordable(
    g: GameModel,
    status: GarrisonStatus,
    player: i64,
    c: ProducerLiteConfig,
    x: Readings,
)
    requires
        crate::tick::manned(g.planets),
        crate::game::distinct(g.planets),
        g.planets.len() <= usize::MAX,
        crate::garrison::describes(status, g),
        attack_list(g, status, x.distances, player, c).len() <= usize::MAX,
        x.shots.len() == attack_list(g, status, x.distances, player, c).len(),
        crate::planner::in_time(x.shots, status.h as nat),
    ensures
        crate::game::affordable(g.planets, player, turn_orders(g, status, player, c, x)),
        least_launch(c) >= 1 ==> forall|k: int|
            0 <= k < turn_orders(g, status, player, c, x).len() ==> (#[trigger] turn_orders(
                g,
                status,
                player,
                c,
                x,
            )[k]).ships > 0,
{
    let n = g.planets.len();
    let requests = attack_list(g, status, x.distances, player, c);
    let cands = crate::planner::candidates(status, requests, x.shots, player, c.roi_threshold, requests.len());
    let max = c.max_waves_per_turn as nat;
    let line = crate::planner::best_first(cands);
    let picks = attack_picks(g, status, requests, x.shots, player, c);
    let committed = crate::planner::committed_by(picks, n);
    lemma_attack_list(g, status, x.distances, player, c);
    crate::planner::lemma_candidates(g, status, requests, x.shots, player, c.roi_threshold, requests.len());
    crate::planner::lemma_best_first(cands);
    assert forall|k: int| 0 <= k < line.len() implies #[trigger] crate::planner::sound(g, player, line[k]) by {
        assert(cands.contains(line[k]));
        let j = choose|j: int| 0 <= j < cands.len() && cands[j] == line[k];
        assert(crate::planner::sound(g, player, cands[j]));
    }
    crate::planner::lemma_picked(g, player, line, max, cands.len());
    assert forall|i: int| 0 <= i < n implies 0 <= #[trigger] committed[i] <= g.planets[i].ships by {
        assert(0 <= crate::planner::sent(picks, i) <= g.planets[i].ships);
    }
    let own = crate::planner::held(g.planets, player);
    let srcs = regroup_from(g, player, committed, c);
    let dsts = crate::ranking::best(
        crate::regroup::pressed(g, own, x.pressures),
        c.max_regroup_targets_per_source as nat,
    );
    let back = regroup_list(g, status, x.pressures, player, committed, c);
    let options = regroup_choice(status, back, x.gaps, x.returns, player, c);
    lemma_regroup_from(g, player, committed, c);
    crate::planner::lemma_held(g.planets, player);
    lemma_pressed(g, own, x.pressures, n);
    lemma_best_below(
        crate::regroup::pressed(g, own, x.pressures),
        c.max_regroup_targets_per_source as nat,
        n,
    );
    crate::regroup::lemma_regroupings(g, status, srcs, dsts, player, committed, least_launch(c));
    crate::regroup::lemma_options(
        status,
        back,
        x.gaps,
        x.returns,
        player,
        c.regroup_pressure_delta_min,
        c.max_regroup_time,
        back.len(),
    );
    crate::regroup::lemma_regroup_asks(g, player, committed, least_launch(c), back, srcs, options, x.scores);
    let first = crate::planner::orders_of(g, picks);
    let second = crate::regroup::regroup_orders(g, srcs, options, x.scores);
    let moves = first + second;
    assert forall|k: int| 0 <= k < moves.len() implies (#[trigger] moves[k]).ships >= 0 && (least_launch(c) >= 1
        ==> moves[k].ships > 0) && crate::game::held_by(g.planets, player, moves[k].from_id) by {
        if k < first.len() {
            assert(moves[k] == first[k]);
            assert(crate::planner::sound(g, player, picks[k]));
            assert(g.planets[picks[k].src_idx as int].id == moves[k].from_id);
        } else {
            assert(moves[k] == second[k - first.len()]);
        }
    }
    assert forall|i: int| 0 <= i < n implies crate::game::asked(moves, (#[trigger] g.planets[i]).id)
        <= g.planets[i].ships by {
        lemma_asked_sum(first, second, g.planets[i].id);
        crate::planner::lemma_orders_ask(g, player, picks, i);
        assert(0 <= crate::planner::sent(picks, i) <= g.planets[i].ships);
        assert(committed[i] == crate::planner::sent(picks, i));
    }
}

/// Every order of a turn is carried out: the game launches a fleet for each that
/// sends ships, which is each of them where the least launch is of one ship or
/// more, and the planets are left with what was not asked of them.
pub proof fn lemma_turn_carried_out(
    g: GameModel,
    status: GarrisonStatus,
    player: i64,
    c: ProducerLiteConfig,
    x: Readings,
    orders: Seq<crate::engine::Order>,
)
    requires
        crate::tick::manned(g.planets),
        crate::game::distinct(g.planets),
        g.planets.len() <= usize::MAX,
        crate::garrison::describes(status, g),
        attack_list(g, status, x.distances, player, c).len() <= usize::MAX,
        x.shots.len() == attack_list(g, status, x.distances, player, c).len(),
        crate::planner::in_time(x.shots, status.h as nat),
        crate::game::said(orders) == turn_orders(g, status, player, c, x),
    ensures
        ({
            let l = crate::engine::launched_all(g, player, orders);
            &&& l.fleets.len() == g.fleets.len() + crate::game::sending(crate::game::said(orders))
            &&& least_launch(c) >= 1 ==> l.fleets.len() == g.fleets.len() + orders.len()
            &&& l.planets.len() == g.planets.len()
            &&& forall|i: int|
                0 <= i < g.planets.len() ==> (#[trigger] l.planets[i]).ships == g.planets[i].ships
                    - crate::game::asked(crate::game::said(orders), g.planets[i].id)
        }),
{
    lemma_turn_affordable(g, status, player, c, x);
    crate::game::lemma_carried_out(g, player, orders);
    if least_launch(c) >= 1 {
        crate::game::lemma_sending(crate::game::said(orders));
    }
    let l = crate::engine::launched_all(g, player, orders);
    assert forall|i: int| 0 <= i < g.planets.len() implies (#[trigger] l.planets[i]).ships == g.planets[i].ships
        - crate::game::asked(crate::game::said(orders), g.planets[i].id) by {
        crate::game::lemma_asked_part(crate::game::said(orders), g.planets[i].id);
    }
}

} // verus!
