//! Every launch that a player could aim at what it does not hold, weighed without
//! leaving any out: for a look at why the planner makes the launches it makes.

use crate::double::Double;
use crate::flow::{capture_floor, safe_drain_planet, score_launch, GarrisonStatus};
use crate::garrison::fleet_eta;
use crate::planner::{owned, Request, Shot};
use crate::state::{GameState, Planet};
use vstd::prelude::*;

verus! {

use crate::state::GameModel;

/// The places of the planets that `player` does not hold.
pub open spec fn others(planets: Seq<Planet>, player: i64) -> Seq<usize>
    decreases planets.len(),
{
    if planets.len() == 0 {
        Seq::empty()
    } else {
        let front = others(planets.drop_last(), player);
        if planets.last().owner == player {
            front
        } else {
            front.push((planets.len() - 1) as usize)
        }
    }
}

/// What is listed as not held are all planets that `player` does not hold, in
/// their order.
pub proof fn lemma_others(planets: Seq<Planet>, player: i64)
    requires
        planets.len() <= usize::MAX,
    ensures
        forall|i: usize|
            i < planets.len() ==> (#[trigger] others(planets, player).contains(i) <==> planets[i as int].owner
                != player),
        forall|k: int| 0 <= k < others(planets, player).len() ==> (#[trigger] others(planets, player)[k]) < planets.len(),
        forall|j: int, k: int|
            0 <= j < k < others(planets, player).len() ==> #[trigger] others(planets, player)[j] < #[trigger] others(
                planets,
                player,
            )[k],
    decreases planets.len(),
{
    if planets.len() > 0 {
        let front = planets.drop_last();
        let last = (planets.len() - 1) as usize;
        lemma_others(front, player);
        let before = others(front, player);
        let all = others(planets, player);
        assert forall|i: usize| i < planets.len() implies (#[trigger] all.contains(i) <==> planets[i as int].owner
            != player) by {
            if i < last {
                assert(front[i as int] == planets[i as int]);
                assert(before.contains(i) <==> front[i as int].owner != player);
                if before.contains(i) {
                    let k = choose|k: int| 0 <= k < before.len() && before[k] == i;
                    assert(all[k] == i);
                }
                if all.contains(i) {
                    let k = choose|k: int| 0 <= k < all.len() && all[k] == i;
                    assert(before[k] == i);
                }
            } else if planets[last as int].owner != player {
                assert(all[before.len() as int] == i);
            } else if all.contains(i) {
                let k = choose|k: int| 0 <= k < all.len() && all[k] == i;
                assert(before[k] < front.len());
            }
        }
    }
}

/// The launches of `ships` from planet `src` at each of `tgts`.
pub open spec fn at_each(src: usize, ships: i64, tgts: Seq<usize>) -> Seq<Request> {
    Seq::new(tgts.len(), |j: int| Request { src, tgt: tgts[j], ships })
}

/// The launches from each of `srcs`, with all that it can safely spare, at each of
/// `tgts`.
pub open spec fn every_pair(status: GarrisonStatus, srcs: Seq<usize>, tgts: Seq<usize>, player: i64) -> Seq<Request>
    decreases srcs.len(),
{
    if srcs.len() == 0 {
        Seq::empty()
    } else {
        every_pair(status, srcs.drop_last(), tgts, player) + at_each(
            srcs.last(),
            crate::planner::spare(status, srcs.last() as int, player) as i64,
            tgts,
        )
    }
}

/// Every pair of a source and a target is there, source by source.
pub proof fn lemma_every_pair(
    status: GarrisonStatus,
    srcs: Seq<usize>,
    tgts: Seq<usize>,
    player: i64,
    i: int,
    j: int,
)
    requires
        0 <= i < srcs.len(),
        0 <= j < tgts.len(),
    ensures
        every_pair(status, srcs, tgts, player).len() == srcs.len() * tgts.len(),
        every_pair(status, srcs, tgts, player)[i * tgts.len() + j] == (Request {
            src: srcs[i],
            tgt: tgts[j],
            ships: crate::planner::spare(status, srcs[i] as int, player) as i64,
        }),
    decreases srcs.len(),
{
    let front = srcs.drop_last();
    let m = tgts.len() as int;
    let n = front.len() as int;
    assert(srcs.len() * m == n * m + m) by (nonlinear_arith)
        requires
            srcs.len() == n + 1,
    ;
    if n == 0 {
        assert(every_pair(status, front, tgts, player).len() == 0);
        assert(0 * m == 0);
    } else if i < n {
        lemma_every_pair(status, front, tgts, player, i, j);
        assert(0 <= i * m + j < n * m) by (nonlinear_arith)
            requires
                0 <= i < n,
                0 <= j < m,
        ;
    } else {
        lemma_every_pair(status, front, tgts, player, 0, j);
    }
}

fn not_owned(g: &GameState, player: i64) -> (r: Vec<usize>)
    ensures
        r@ == others(g@.planets, player),
        forall|k: int|
            0 <= k < r@.len() ==> (#[trigger] r@[k]) < g@.planets.len() && g@.planets[r@[k] as int].owner != player,
{
    let mut r: Vec<usize> = Vec::new();
    let mut i: usize = 0;
    assert(g@.planets.take(0) =~= Seq::<Planet>::empty());
    while i < g.planets.len()
        invariant
            i <= g.planets@.len(),
            r@ == others(g@.planets.take(i as int), player),
            forall|k: int|
                0 <= k < r@.len() ==> (#[trigger] r@[k]) < g@.planets.len() && g@.planets[r@[k] as int].owner
                    != player,
        decreases g.planets@.len() - i,
    {
        assert(g@.planets.take(i + 1).drop_last() =~= g@.planets.take(i as int));
        if g.planets[i].owner != player {
            r.push(i);
        }
        i += 1;
    }
    assert(g@.planets.take(i as int) =~= g@.planets);
    r
}

/// Lists the launches from every planet that `player` holds at every planet that it
/// does not hold, with all that the source can safely spare.
pub fn debug_requests(g: &GameState, status: &GarrisonStatus, player: i64) -> (r: Vec<Request>)
    requires
        crate::garrison::describes(*status, g@),
        0 <= player,
        player <= usize::MAX,
    ensures
        r@ == every_pair(
            *status,
            crate::planner::held(g@.planets, player),
            others(g@.planets, player),
            player,
        ),
        forall|k: int| 0 <= k < r@.len() ==> #[trigger] crate::planner::proper(g@, player, r@[k]),
{
    let srcs = owned(g, player);
    let tgts = not_owned(g, player);
    let mut r: Vec<Request> = Vec::new();
    let mut i: usize = 0;
    assert(srcs@.take(0) =~= Seq::<usize>::empty());
    while i < srcs.len()
        invariant
            i <= srcs@.len(),
            crate::garrison::describes(*status, g@),
            0 <= player,
            player <= usize::MAX,
            forall|k: int|
                0 <= k < srcs@.len() ==> (#[trigger] srcs@[k]) < g@.planets.len() && g@.planets[srcs@[k] as int].owner
                    == player,
            forall|k: int|
                0 <= k < tgts@.len() ==> (#[trigger] tgts@[k]) < g@.planets.len() && g@.planets[tgts@[k] as int].owner
                    != player,
            r@ == every_pair(*status, srcs@.take(i as int), tgts@, player),
            forall|k: int| 0 <= k < r@.len() ==> #[trigger] crate::planner::proper(g@, player, r@[k]),
        decreases srcs@.len() - i,
    {
        assert(srcs@.take(i + 1).drop_last() =~= srcs@.take(i as int));
        assert(srcs@[i as int] < g@.planets.len());
        let src: usize = srcs[i];
        let ships: i64 = safe_drain_planet(status, src, player as usize, status.h);
        assert(status.planets@[src as int].forecast().init.ships == g@.planets[src as int].ships);
        let ghost before = r@;
        let mut j: usize = 0;
        while j < tgts.len()
            invariant
                j <= tgts@.len(),
                src < g@.planets.len(),
                g@.planets[src as int].owner == player,
                0 <= ships <= g@.planets[src as int].ships,
                forall|k: int|
                    0 <= k < tgts@.len() ==> (#[trigger] tgts@[k]) < g@.planets.len()
                        && g@.planets[tgts@[k] as int].owner != player,
                r@ =~= before + at_each(src, ships, tgts@).take(j as int),
                forall|k: int| 0 <= k < r@.len() ==> #[trigger] crate::planner::proper(g@, player, r@[k]),
            decreases tgts@.len() - j,
        {
            assert(tgts@[j as int] < g@.planets.len());
            r.push(Request { src, tgt: tgts[j], ships });
            j += 1;
        }
        assert(at_each(src, ships, tgts@).take(j as int) =~= at_each(src, ships, tgts@));
        i += 1;
    }
    assert(srcs@.take(i as int) =~= srcs@);
    r
}

proof fn lemma_pair_targets(status: GarrisonStatus, srcs: Seq<usize>, tgts: Seq<usize>, player: i64)
    ensures
        forall|k: int|
            0 <= k < every_pair(status, srcs, tgts, player).len() ==> tgts.contains(
                (#[trigger] every_pair(status, srcs, tgts, player)[k]).tgt,
            ),
    decreases srcs.len(),
{
    if srcs.len() > 0 {
        lemma_pair_targets(status, srcs.drop_last(), tgts, player);
        let front = every_pair(status, srcs.drop_last(), tgts, player);
        let all = every_pair(status, srcs, tgts, player);
        assert forall|k: int| 0 <= k < all.len() implies tgts.contains((#[trigger] all[k]).tgt) by {
            if k < front.len() {
                assert(all[k] == front[k]);
            } else {
                assert(all[k].tgt == tgts[k - front.len()]);
            }
        }
    }
}

proof fn lemma_threatened_own(status: GarrisonStatus, own: Seq<usize>, player: i64)
    ensures
        forall|k: int|
            0 <= k < crate::planner::threatened(status, own, player).len() ==> own.contains(
                (#[trigger] crate::planner::threatened(status, own, player)[k]).idx,
            ),
    decreases own.len(),
{
    if own.len() > 0 {
        let before = own.drop_last();
        lemma_threatened_own(status, before, player);
        let front = crate::planner::threatened(status, before, player);
        let all = crate::planner::threatened(status, own, player);
        assert forall|k: int| 0 <= k < all.len() implies own.contains((#[trigger] all[k]).idx) by {
            if k < front.len() {
                assert(all[k] == front[k]);
                let j = choose|j: int| 0 <= j < before.len() && before[j] == front[k].idx;
                assert(own[j] == all[k].idx);
            } else {
                assert(own[own.len() - 1] == all[k].idx);
            }
        }
    }
}

/// No launch at a planet that `player` does not hold goes to one that is to be
/// defended.
pub proof fn lemma_none_defended(g: GameModel, status: GarrisonStatus, player: i64, max: nat)
    requires
        g.planets.len() <= usize::MAX,
    ensures
        ({
            let launches = every_pair(
                status,
                crate::planner::held(g.planets, player),
                others(g.planets, player),
                player,
            );
            let defended = crate::ranking::best(
                crate::planner::threatened(status, crate::planner::held(g.planets, player), player),
                max,
            );
            forall|k: int| 0 <= k < launches.len() ==> !defended.contains((#[trigger] launches[k]).tgt)
        }),
{
    let own = crate::planner::held(g.planets, player);
    let rest = others(g.planets, player);
    let launches = every_pair(status, own, rest, player);
    let items = crate::planner::threatened(status, own, player);
    let defended = crate::ranking::best(items, max);
    lemma_pair_targets(status, own, rest, player);
    lemma_threatened_own(status, own, player);
    crate::planner::lemma_held(g.planets, player);
    crate::ranking::lemma_best(items, max);
    lemma_others(g.planets, player);
    assert forall|k: int| 0 <= k < launches.len() implies !defended.contains((#[trigger] launches[k]).tgt) by {
        let t = launches[k].tgt;
        assert(rest.contains(t));
        let i = choose|i: int| 0 <= i < rest.len() && rest[i] == t;
        assert(rest[i] < g.planets.len());
        if defended.contains(t) {
            let d = choose|d: int| 0 <= d < defended.len() && defended[d] == t;
            assert(crate::ranking::listed(items, defended[d]));
            let j = choose|j: int| 0 <= j < items.len() && (#[trigger] items[j]).idx == t;
            assert(own.contains(items[j].idx));
            let o = choose|o: int| 0 <= o < own.len() && own[o] == t;
            assert(g.planets[own[o] as int].owner == player);
        }
    }
}

/// A launch, weighed: when it arrives, or 1 where it does not; whether it does;
/// the ships needed to hold the target then; what it is worth; whether that is
/// enough; and whether its target is one to attack or to defend. Where the launches
/// are those of `debug_requests`, which go only to planets that the player does not
/// hold, and those to defend are its own planets, `defensive` is false in every row.
#[derive(Clone, Copy, PartialEq, Eq, Debug)]
pub struct DebugRow {
    pub request: Request,
    pub eta: usize,
    pub angle: Double,
    pub floor: i64,
    pub reaches: bool,
    pub score: Option<i128>,
    pub pays: bool,
    pub offensive: bool,
    pub defensive: bool,
}

/// What the launch is worth, where it sends ships and arrives within the horizon.
pub open spec fn worth(status: GarrisonStatus, r: Request, eta: int, player: i64) -> Option<int> {
    if r.ships > 0 && 0 < eta <= status.h {
        Some(
            crate::flow::launch_score(
                status.planets@[r.src as int].forecast(),
                status.planets@[r.tgt as int].forecast(),
                player as int,
                r.ships as int,
                eta,
                status.a as nat,
            ),
        )
    } else {
        None
    }
}

impl DebugRow {
    /// The row is that of launch `r`, aimed by `shot`.
    pub open spec fn describes(
        self,
        status: GarrisonStatus,
        r: Request,
        shot: Shot,
        player: i64,
        roi: Double,
        offensive: Seq<usize>,
        defensive: Seq<usize>,
    ) -> bool {
        let hit = crate::planner::hits(shot, r.tgt);
        let eta = match hit {
            Some(k) => k,
            None => 1,
        };
        let score = worth(status, r, eta, player);
        &&& self.request == r
        &&& self.angle == shot.angle
        &&& self.eta == eta
        &&& self.reaches == (hit is Some)
        &&& self.floor == (if eta > status.h {
            0
        } else {
            crate::flow::ships_needed(status.planets@[r.tgt as int].forecast(), player as int, eta as nat, 1)
        })
        &&& match self.score {
            Some(v) => score == Some(v as int),
            None => score is None,
        }
        &&& self.pays == (score matches Some(v) && roi.below_whole(v))
        &&& self.offensive == offensive.contains(r.tgt)
        &&& self.defensive == defensive.contains(r.tgt)
    }
}

impl DebugRow {
    /// The row says of launch `r` that it reaches its target just where that is the
    /// first that it meets, and then in which step; that it is worth something where it
    /// sends ships and is in time; that it pays where that is more than `roi`; and which
    /// lists its target stands in.
    pub open spec fn tells(
        self,
        r: Request,
        shot: Shot,
        h: int,
        roi: Double,
        offensive: Seq<usize>,
        defensive: Seq<usize>,
    ) -> bool {
        &&& self.request == r
        &&& self.angle == shot.angle
        &&& self.reaches ==> crate::garrison::arrives_at(shot.legs@, r.tgt as int, self.eta as int)
        &&& !self.reaches ==> self.eta == 1
        &&& !self.reaches ==> forall|m: int| !#[trigger] crate::garrison::arrives_at(shot.legs@, r.tgt as int, m)
        &&& self.score is Some <==> r.ships > 0 && self.eta <= h
        &&& self.pays <==> self.score is Some && roi.below_whole(self.score->0 as int)
        &&& self.offensive <==> exists|i: int| 0 <= i < offensive.len() && offensive[i] == r.tgt
        &&& self.defensive <==> exists|i: int| 0 <= i < defensive.len() && defensive[i] == r.tgt
    }
}

/// A row that describes a launch tells of it what holds.
pub proof fn lemma_tells(
    row: DebugRow,
    status: GarrisonStatus,
    r: Request,
    shot: Shot,
    player: i64,
    roi: Double,
    offensive: Seq<usize>,
    defensive: Seq<usize>,
)
    requires
        row.describes(status, r, shot, player, roi, offensive, defensive),
    ensures
        row.tells(r, shot, status.h as int, roi, offensive, defensive),
{
    crate::garrison::lemma_voyage(shot.legs@, shot.legs@.len());
}

fn is_among(list: &Vec<usize>, x: usize) -> (r: bool)
    ensures
        r == list@.contains(x),
{
    let mut i: usize = 0;
    while i < list.len()
        invariant
            i <= list@.len(),
            forall|k: int| 0 <= k < i ==> list@[k] != x,
        decreases list@.len() - i,
    {
        if list[i] == x {
            return true;
        }
        i += 1;
    }
    false
}

/// Weighs the aimed launches, one row for each: `shots[k]` is launch `k`, aimed.
pub fn debug_rows(
    g: &GameState,
    status: &GarrisonStatus,
    requests: &Vec<Request>,
    shots: &Vec<Shot>,
    player: i64,
    roi: Double,
    offensive: &Vec<usize>,
    defensive: &Vec<usize>,
) -> (rows: Vec<DebugRow>)
    requires
        crate::tick::manned(g@.planets),
        crate::garrison::describes(*status, g@),
        0 <= player,
        shots@.len() == requests@.len(),
        crate::planner::in_time(shots@, status.h as nat),
        forall|k: int| 0 <= k < requests@.len() ==> #[trigger] crate::planner::proper(g@, player, requests@[k]),
    ensures
        rows@.len() == requests@.len(),
        forall|k: int|
            0 <= k < rows@.len() ==> (#[trigger] rows@[k]).describes(
                *status,
                requests@[k],
                shots@[k],
                player,
                roi,
                offensive@,
                defensive@,
            ),
        forall|k: int|
            0 <= k < rows@.len() ==> (#[trigger] rows@[k]).tells(
                requests@[k],
                shots@[k],
                status.h as int,
                roi,
                offensive@,
                defensive@,
            ),
{
    let mut rows: Vec<DebugRow> = Vec::new();
    while rows.len() < requests.len()
        invariant
            rows@.len() <= requests@.len(),
            crate::tick::manned(g@.planets),
            crate::garrison::describes(*status, g@),
            0 <= player,
            shots@.len() == requests@.len(),
            crate::planner::in_time(shots@, status.h as nat),
            forall|k: int| 0 <= k < requests@.len() ==> #[trigger] crate::planner::proper(g@, player, requests@[k]),
            forall|k: int|
                0 <= k < rows@.len() ==> (#[trigger] rows@[k]).describes(
                    *status,
                    requests@[k],
                    shots@[k],
                    player,
                    roi,
                    offensive@,
                    defensive@,
                ),
        decreases requests@.len() - rows@.len(),
    {
        let i: usize = rows.len();
        let q = requests[i];
        let shot = &shots[i];
        proof {
            assert(crate::planner::proper(g@, player, requests@[i as int]));
            assert(shots@[i as int].legs@.len() <= status.h);
            assert(g@.planets[q.src as int].owner < status.a);
            assert(g@.planets[q.tgt as int].owner < status.a);
            assert(status.planets@[q.src as int].valid(status.h as int, status.a as nat));
            assert(status.planets@[q.tgt as int].valid(status.h as int, status.a as nat));
            crate::tick::lemma_ships_part(g@.planets, q.src as int);
        }
        let (reaches, eta) = match fleet_eta(&shot.legs) {
            Some((hit, k)) => if hit == q.tgt {
                (true, k)
            } else {
                (false, 1usize)
            },
            None => (false, 1usize),
        };
        proof {
            if eta <= status.h {
                crate::flow::lemma_says(*status, q.tgt as int, eta as int);
            }
        }
        let floor: i64 = capture_floor(status, q.tgt, eta, player as usize, 1);
        let score = score_launch(status, q.src, q.tgt, q.ships, eta, player as usize);
        let pays: bool = match score {
            Some(v) => roi.lt_whole(v),
            None => false,
        };
        rows.push(
            DebugRow {
                request: q,
                eta,
                angle: shot.angle,
                floor,
                reaches,
                score,
                pays,
                offensive: is_among(offensive, q.tgt),
                defensive: is_among(defensive, q.tgt),
            },
        );
    }
    proof {
        assert forall|k: int| 0 <= k < rows@.len() implies (#[trigger] rows@[k]).tells(
            requests@[k],
            shots@[k],
            status.h as int,
            roi,
            offensive@,
            defensive@,
        ) by {
            lemma_tells(rows@[k], *status, requests@[k], shots@[k], player, roi, offensive@, defensive@);
        }
    }
    rows
}

} // verus!
