//! What a launch is worth, and how many ships it takes.

use crate::forecast::{planet_trajectory, survivor, Trajectory, SHIP_LIMIT};
use vstd::prelude::*;

verus! {

use crate::forecast::{Forecast, Holding};

/// Steps that a projection looks ahead by default.
pub const HORIZON: usize = 18;

/// What `player` loses where the ships of `row` meet `prior`: what its own
/// ships cannot save from the meeting of the attackers, and what it loses
/// between the survivor and the garrison. Nothing is counted where nobody
/// survives.
pub open spec fn lost_at(row: Seq<i64>, prior: Holding, alive: bool, player: int) -> int {
    let (o, s) = crate::forecast::party(row);
    if s <= 0 || !alive {
        0
    } else {
        let loss = if o == prior.owner {
            0
        } else if prior.ships < s {
            prior.ships
        } else {
            s
        };
        row[player] - (if player == o {
            s
        } else {
            0
        }) + (if player == prior.owner {
            loss
        } else {
            0
        }) + (if player == o {
            loss
        } else {
            0
        })
    }
}

impl Forecast {
    /// Ships that the planet makes for `player` up to step `k`.
    pub open spec fn made(self, player: int, k: nat) -> int
        decreases k,
    {
        if k == 0 {
            0
        } else {
            self.made(player, (k - 1) as nat) + (if self.after((k - 1) as nat).owner == player && self.alive[k - 1] {
                self.prod
            } else {
                0
            })
        }
    }

    /// Ships that `player` loses over the planet up to step `k`.
    pub open spec fn lost(self, player: int, k: nat) -> int
        decreases k,
    {
        if k == 0 {
            0
        } else {
            self.lost(player, (k - 1) as nat) + lost_at(
                self.arrivals[k as int],
                self.before(k),
                self.alive[k as int],
                player,
            )
        }
    }

    /// What the planet is worth to `player`: what it makes less what is lost
    /// over it.
    pub open spec fn net(self, player: int) -> int {
        self.made(player, self.horizon() as nat) - self.lost(player, self.horizon() as nat)
    }
}

/// Nothing is lost where nobody survives the meeting, and a planet that is held makes
/// its production for its holder and for nobody else.
pub proof fn lemma_flow_step(f: Forecast, player: int, k: nat)
    requires
        k > 0,
    ensures
        (forall|a: int|
            0 <= a < f.arrivals[k as int].len() ==> #[trigger] crate::forecast::margin(f.arrivals[k as int], a) <= 0)
            ==> f.lost(player, k) == f.lost(player, (k - 1) as nat),
        f.alive[k - 1] && f.after((k - 1) as nat).owner == player ==> f.made(player, k) == f.made(player, (k - 1) as nat)
            + f.prod,
        f.after((k - 1) as nat).owner != player ==> f.made(player, k) == f.made(player, (k - 1) as nat),
        !f.alive[k - 1] ==> f.made(player, k) == f.made(player, (k - 1) as nat),
        !f.alive[k as int] ==> f.lost(player, k) == f.lost(player, (k - 1) as nat),
        f.made(player, 0) == 0,
        f.lost(player, 0) == 0,
{
}

/// Neither what is made nor what is lost is less than nothing; both are bounded
/// by what comes together on the planet.
pub proof fn lemma_flow_bounds(f: Forecast, a: nat, player: int, k: nat)
    requires
        f.valid(a),
        0 <= player < a,
        k <= f.horizon(),
    ensures
        0 <= f.made(player, k) <= f.prod * k,
        0 <= f.lost(player, k) <= 3 * crate::forecast::landing_total(f.arrivals, (k + 1) as nat),
    decreases k,
{
    crate::forecast::lemma_landing_total(f.arrivals, k, (k + 1) as nat);
    if k > 0 {
        lemma_flow_bounds(f, a, player, (k - 1) as nat);
        crate::forecast::lemma_after(f, a, k);
        let row = f.arrivals[k as int];
        assert(crate::forecast::counts(row) && row.len() == a);
        crate::forecast::lemma_party(row);
        crate::forecast::lemma_row_sum(row, player);
        assert(f.prod * k == f.prod * (k - 1) + f.prod) by (nonlinear_arith);
    } else {
        assert(f.prod * 0 == 0);
    }
}

/// The ships that `player` has on the planet.
pub open spec fn share(h: Holding, player: int) -> int {
    if h.owner == player {
        h.ships
    } else {
        0
    }
}

/// Ships of `player` that land from step 1 to step `k`.
pub open spec fn landed(f: Forecast, player: int, k: nat) -> int
    decreases k,
{
    if k == 0 {
        0
    } else {
        landed(f, player, (k - 1) as nat) + f.arrivals[k as int][player]
    }
}

/// No two players have the most ships in `row`, unless nobody has any.
pub open spec fn untied(row: Seq<i64>) -> bool {
    forall|b: int, c: int|
        0 <= b < c < row.len() && #[trigger] row[b] == #[trigger] row[c] && row[b] > 0 ==> exists|d: int|
            0 <= d < row.len() && #[trigger] row[d] > row[b]
}

proof fn lemma_most(row: Seq<i64>) -> (m: int)
    requires
        row.len() > 0,
    ensures
        0 <= m < row.len(),
        forall|b: int| 0 <= b < row.len() ==> #[trigger] row[b] <= row[m],
    decreases row.len(),
{
    let last = row.len() - 1;
    if last == 0 {
        return 0;
    }
    let front = row.drop_last();
    let m = lemma_most(front);
    assert forall|b: int| 0 <= b < last implies #[trigger] row[b] <= row[m] by {
        assert(front[b] == row[b]);
    }
    if row[last] > row[m] {
        last
    } else {
        m
    }
}

/// Where no two players have the most ships, one of them has ships left.
proof fn lemma_untied(row: Seq<i64>, player: int)
    requires
        untied(row),
        0 <= player < row.len(),
        row[player] > 0,
    ensures
        crate::forecast::party(row).1 > 0,
{
    let m = lemma_most(row);
    crate::forecast::lemma_best_other(row, m, row.len());
    let best = crate::forecast::best_other(row, m, row.len());
    if best >= row[m] {
        let b = choose|b: int| 0 <= b < row.len() && b != m && #[trigger] row[b] == best;
        assert(row[b] == row[m]);
        if b < m {
            assert(exists|d: int| 0 <= d < row.len() && #[trigger] row[d] > row[b]);
        } else {
            assert(exists|d: int| 0 <= d < row.len() && #[trigger] row[d] > row[m]);
        }
        assert(false);
    }
    assert(crate::forecast::margin(row, m) > 0);
}

/// Ships add up: over a planet that is there throughout, and where no landing ends
/// in a tie, a player ends with what it had, what the planet made for it and what
/// it landed, less what it lost.
pub proof fn lemma_ships_add_up(f: Forecast, a: nat, player: int, k: nat)
    requires
        f.valid(a),
        0 <= player < a,
        k <= f.horizon(),
        forall|j: int| 0 <= j <= k ==> #[trigger] f.alive[j],
        forall|j: int| 1 <= j <= k ==> untied(#[trigger] f.arrivals[j]),
    ensures
        share(f.after(k), player) == share(f.init, player) + f.made(player, k) + landed(f, player, k) - f.lost(
            player,
            k,
        ),
    decreases k,
{
    if k > 0 {
        lemma_ships_add_up(f, a, player, (k - 1) as nat);
        let row = f.arrivals[k as int];
        assert(crate::forecast::counts(row) && row.len() == a);
        assert(f.alive[k as int] && f.alive[k - 1]);
        assert(row[player] >= 0);
        crate::forecast::lemma_party(row);
        if row[player] > 0 {
            lemma_untied(row, player);
        }
    }
}

/// What each of `a` players makes and loses over a planet.
fn flow_terms_single(
    t: &Trajectory,
    arrivals: &Vec<Vec<i64>>,
    prod: i64,
    alive: &Vec<bool>,
    a: usize,
    Ghost(f): Ghost<Forecast>,
) -> (r: (Vec<i64>, Vec<i64>))
    requires
        a <= i64::MAX,
        f.valid(a as nat),
        f.reach() <= SHIP_LIMIT,
        f.init.owner < a,
        f.prod == prod,
        f.alive == alive@,
        f.arrivals == crate::forecast::rows(arrivals@),
        t.follows(f, alive@.len() as int),
    ensures
        r.0@.len() == a,
        r.1@.len() == a,
        forall|p: int| 0 <= p < a ==> #[trigger] r.0@[p] == f.made(p, f.horizon() as nat),
        forall|p: int| 0 <= p < a ==> #[trigger] r.1@[p] == f.lost(p, f.horizon() as nat),
{
    let mut made: Vec<i64> = Vec::new();
    let mut lost: Vec<i64> = Vec::new();
    while made.len() < a
        invariant
            made@.len() <= a,
            lost@.len() == made@.len(),
            forall|p: int| 0 <= p < made@.len() ==> #[trigger] made@[p] == 0,
            forall|p: int| 0 <= p < lost@.len() ==> #[trigger] lost@[p] == 0,
        decreases a - made@.len(),
    {
        made.push(0);
        lost.push(0);
    }
    let mut k: usize = 1;
    while k < alive.len()
        invariant
            1 <= k <= alive@.len(),
            a <= i64::MAX,
            f.valid(a as nat),
            f.reach() <= SHIP_LIMIT,
            f.init.owner < a,
            f.prod == prod,
            f.alive == alive@,
            f.arrivals == crate::forecast::rows(arrivals@),
            t.follows(f, alive@.len() as int),
            made@.len() == a,
            lost@.len() == a,
            forall|p: int| 0 <= p < a ==> #[trigger] made@[p] == f.made(p, (k - 1) as nat),
            forall|p: int| 0 <= p < a ==> #[trigger] lost@[p] == f.lost(p, (k - 1) as nat),
        decreases alive@.len() - k,
    {
        let ghost made0 = made@;
        let ghost lost0 = lost@;
        proof {
            crate::forecast::lemma_after(f, a as nat, (k - 1) as nat);
            crate::forecast::lemma_after(f, a as nat, k as nat);
            crate::forecast::lemma_landing_total(f.arrivals, (k + 1) as nat, f.arrivals.len());
            assert(0 <= f.prod * k <= f.prod * f.horizon()) by (nonlinear_arith)
                requires
                    f.prod >= 0,
                    k <= f.horizon(),
            ;
            assert(f.arrivals[k as int] == arrivals@[k as int]@);
            assert(crate::forecast::counts(f.arrivals[k as int]));
            crate::forecast::lemma_party(f.arrivals[k as int]);
            assert(t.owner@[k - 1] == f.after((k - 1) as nat).owner);
            assert(t.pre_owner@[k as int] == f.before(k as nat).owner);
        }
        let maker: i64 = t.owner[k - 1];
        if maker >= 0 && alive[k - 1] {
            proof {
                lemma_flow_bounds(f, a as nat, maker as int, k as nat);
            }
            let m: usize = maker as usize;
            let more: i64 = made[m] + prod;
            made[m] = more;
        }
        assert forall|p: int| 0 <= p < a implies #[trigger] made@[p] == f.made(p, k as nat) by {
            assert(made0[p] == f.made(p, (k - 1) as nat));
        }
        let row = &arrivals[k];
        let (o, s) = survivor(row);
        if s > 0 && alive[k] {
            let prior_owner: i64 = t.pre_owner[k];
            let prior_ships: i64 = t.pre_ships[k];
            let loss: i64 = if o == prior_owner {
                0
            } else if prior_ships < s {
                prior_ships
            } else {
                s
            };
            let mut p: usize = 0;
            while p < a
                invariant
                    p <= a,
                    a <= i64::MAX,
                    1 <= k < alive@.len(),
                    f.valid(a as nat),
                    f.reach() <= SHIP_LIMIT,
                    f.prod * f.horizon() >= 0,
                    crate::forecast::landing_total(f.arrivals, (k + 1) as nat)
                        <= crate::forecast::landing_total(f.arrivals, f.arrivals.len()),
                    f.alive == alive@,
                    alive@[k as int],
                    row@ == f.arrivals[k as int],
                    row@.len() == a,
                    crate::forecast::counts(row@),
                    o == crate::forecast::party(row@).0,
                    s == crate::forecast::party(row@).1,
                    s > 0,
                    0 <= o < a,
                    s <= row@[o as int],
                    0 <= loss <= s,
                    prior_ships >= 0,
                    (Holding { owner: prior_owner as int, ships: prior_ships as int }) == f.before(k as nat),
                    loss == (if o == prior_owner {
                        0
                    } else if prior_ships < s {
                        prior_ships
                    } else {
                        s
                    }),
                    lost0.len() == a,
                    lost@.len() == a,
                    forall|q: int| 0 <= q < a ==> #[trigger] lost0[q] == f.lost(q, (k - 1) as nat),
                    forall|q: int| 0 <= q < p ==> #[trigger] lost@[q] == f.lost(q, k as nat),
                    forall|q: int| p <= q < a ==> #[trigger] lost@[q] == lost0[q],
                decreases a - p,
            {
                proof {
                    crate::forecast::lemma_row_sum(row@, p as int);
                    lemma_flow_bounds(f, a as nat, p as int, k as nat);
                    lemma_flow_bounds(f, a as nat, p as int, (k - 1) as nat);
                    assert(lost0[p as int] == f.lost(p as int, (k - 1) as nat));
                }
                let mut d: i64 = row[p];
                if p as i64 == o {
                    d = d - s + loss;
                }
                if p as i64 == prior_owner {
                    d = d + loss;
                }
                assert(d == lost_at(row@, f.before(k as nat), true, p as int));
                let more: i64 = lost[p] + d;
                lost[p] = more;
                p += 1;
            }
        } else {
            assert forall|q: int| 0 <= q < a implies #[trigger] lost@[q] == f.lost(q, k as nat) by {
                assert(lost0[q] == f.lost(q, (k - 1) as nat));
            }
        }
        k += 1;
    }
    (made, lost)
}

/// How one planet is projected to fare, and what decides it.
pub struct Projection {
    pub course: Trajectory,
    pub arrivals: Vec<Vec<i64>>,
    pub prod: i64,
    pub alive: Vec<bool>,
}

impl Projection {
    /// What decides how the planet fares.
    pub open spec fn forecast(self) -> Forecast {
        Forecast {
            init: Holding { owner: self.course.owner@[0] as int, ships: self.course.ships@[0] as int },
            prod: self.prod as int,
            alive: self.alive@,
            arrivals: crate::forecast::rows(self.arrivals@),
        }
    }

    /// The course over `h` steps is the one that the forecast for `a` players
    /// gives.
    pub open spec fn valid(self, h: int, a: nat) -> bool {
        &&& self.forecast().valid(a)
        &&& self.forecast().horizon() == h
        &&& self.forecast().reach() <= SHIP_LIMIT
        &&& self.course.follows(self.forecast(), h + 1)
    }
}

/// The projections of all planets, `h` steps ahead, for `a` players.
pub struct GarrisonStatus {
    pub p: usize,
    pub h: usize,
    pub a: usize,
    pub planets: Vec<Projection>,
}

impl GarrisonStatus {
    pub open spec fn valid(self) -> bool {
        &&& self.p == self.planets@.len()
        &&& self.h < usize::MAX
        &&& self.h <= i64::MAX
        &&& self.a <= i64::MAX
        &&& forall|i: int|
            0 <= i < self.planets@.len() ==> (#[trigger] self.planets@[i]).valid(self.h as int, self.a as nat)
    }
}

/// The forecast with `n` ships fewer at the start, or none where there are not
/// as many.
pub open spec fn debited(f: Forecast, n: int) -> Forecast {
    Forecast {
        init: Holding {
            owner: f.init.owner,
            ships: if f.init.ships < n {
                0
            } else {
                f.init.ships - n
            },
        },
        ..f
    }
}

/// The ships of `player` in `row` with `n` more, or none where that is less than
/// nothing.
pub open spec fn joined(row: Seq<i64>, player: int, n: int) -> int {
    if row[player] + n < 0 {
        0
    } else {
        row[player] + n
    }
}

/// The forecast with `n` more ships of `player` landing at step `eta`.
pub open spec fn credited(f: Forecast, player: int, n: int, eta: int) -> Forecast {
    let row = f.arrivals[eta];
    Forecast { arrivals: f.arrivals.update(eta, row.update(player, joined(row, player, n) as i64)), ..f }
}

/// By how much the launch changes what source and target are worth to `of`.
pub open spec fn net_change(src: Forecast, tgt: Forecast, player: int, n: int, eta: int, of: int) -> int {
    (debited(src, n).net(of) - src.net(of)) + (credited(tgt, player, n, eta).net(of) - tgt.net(of))
}

/// The changes for the first `k` players together.
pub open spec fn change_sum(src: Forecast, tgt: Forecast, player: int, n: int, eta: int, k: nat) -> int
    decreases k,
{
    if k == 0 {
        0
    } else {
        change_sum(src, tgt, player, n, eta, (k - 1) as nat) + net_change(src, tgt, player, n, eta, k - 1)
    }
}

/// What the launch is worth to `player` among `a` players: its own gain less
/// the gains of all others.
pub open spec fn launch_score(src: Forecast, tgt: Forecast, player: int, n: int, eta: int, a: nat) -> int {
    let own = net_change(src, tgt, player, n, eta, player);
    own - (change_sum(src, tgt, player, n, eta, a) - own)
}

pub proof fn lemma_row_update(row: Seq<i64>, player: int, v: i64)
    requires
        crate::forecast::counts(row),
        0 <= player < row.len(),
        v >= 0,
    ensures
        crate::forecast::counts(row.update(player, v)),
        crate::forecast::row_sum(row.update(player, v)) == crate::forecast::row_sum(row) - row[player] + v,
    decreases row.len(),
{
    let next = row.update(player, v);
    assert forall|b: int| 0 <= b < next.len() implies #[trigger] next[b] >= 0 by {
        assert(row[b] >= 0);
    }
    let front = row.drop_last();
    assert forall|b: int| 0 <= b < front.len() implies #[trigger] front[b] >= 0 by {
        assert(front[b] == row[b]);
    }
    if player < front.len() {
        lemma_row_update(front, player, v);
        assert(next.drop_last() =~= front.update(player, v));
    } else {
        assert(next.drop_last() =~= front);
    }
}

pub proof fn lemma_total_credit(arrivals: Seq<Seq<i64>>, eta: int, row: Seq<i64>, n: nat)
    requires
        0 <= eta < arrivals.len(),
        n <= arrivals.len(),
    ensures
        crate::forecast::landing_total(arrivals.update(eta, row), n)
            == crate::forecast::landing_total(arrivals, n) + (if eta < n {
            crate::forecast::row_sum(row) - crate::forecast::row_sum(arrivals[eta])
        } else {
            0
        }),
    decreases n,
{
    if n > 0 {
        lemma_total_credit(arrivals, eta, row, (n - 1) as nat);
    }
}

/// Ships that land are added to what comes together on the planet, and those that
/// do not are taken from it.
pub proof fn lemma_credited(f: Forecast, a: nat, player: int, n: int, eta: int)
    requires
        f.valid(a),
        0 <= player < a,
        0 <= eta <= f.horizon(),
        f.reach() <= SHIP_LIMIT,
        f.reach() + n <= SHIP_LIMIT,
    ensures
        credited(f, player, n, eta).valid(a),
        credited(f, player, n, eta).reach() == f.reach() - f.arrivals[eta][player] + joined(
            f.arrivals[eta],
            player,
            n,
        ),
        credited(f, player, n, eta).reach() <= SHIP_LIMIT,
        0 <= f.arrivals[eta][player] <= SHIP_LIMIT,
        0 <= joined(f.arrivals[eta], player, n) <= SHIP_LIMIT,
{
    let row = f.arrivals[eta];
    assert(crate::forecast::counts(row) && row.len() == a);
    crate::forecast::lemma_row_sum(row, player);
    crate::forecast::lemma_landing_total(f.arrivals, eta as nat, (eta + 1) as nat);
    crate::forecast::lemma_landing_total(f.arrivals, (eta + 1) as nat, f.arrivals.len());
    assert(f.prod * f.horizon() >= 0) by (nonlinear_arith)
        requires
            f.prod >= 0,
            f.horizon() >= 0,
    ;
    lemma_row_update(row, player, joined(row, player, n) as i64);
    lemma_total_credit(f.arrivals, eta, row.update(player, joined(row, player, n) as i64), f.arrivals.len());
    let c = credited(f, player, n, eta);
    assert forall|k: int| 0 <= k < c.arrivals.len() implies (#[trigger] c.arrivals[k]).len() == a && crate::forecast::counts(
        c.arrivals[k],
    ) by {
        assert(f.arrivals[k].len() == a && crate::forecast::counts(f.arrivals[k]));
    }
}

proof fn lemma_net_bound(f: Forecast, a: nat, player: int)
    requires
        f.valid(a),
        f.reach() <= SHIP_LIMIT,
        0 <= player < a,
    ensures
        -3 * SHIP_LIMIT <= f.net(player) <= SHIP_LIMIT,
        0 <= f.made(player, f.horizon() as nat) <= SHIP_LIMIT,
        0 <= f.lost(player, f.horizon() as nat) <= 3 * SHIP_LIMIT,
{
    lemma_flow_bounds(f, a, player, f.horizon() as nat);
    crate::forecast::lemma_landing_total(f.arrivals, f.arrivals.len(), f.arrivals.len());
    assert(f.prod * f.horizon() >= 0) by (nonlinear_arith)
        requires
            f.prod >= 0,
            f.horizon() >= 0,
    ;
}

/// Ships at the start, and what is made and lands besides, come together.
proof fn lemma_room_at_start(f: Forecast, a: nat)
    requires
        f.valid(a),
    ensures
        0 <= f.init.ships <= f.reach(),
{
    crate::forecast::lemma_landing_total(f.arrivals, f.arrivals.len(), f.arrivals.len());
    assert(f.prod * f.horizon() >= 0) by (nonlinear_arith)
        requires
            f.prod >= 0,
            f.horizon() >= 0,
    ;
}

fn copy_rows(arrivals: &Vec<Vec<i64>>) -> (r: Vec<Vec<i64>>)
    ensures
        crate::forecast::rows(r@) == crate::forecast::rows(arrivals@),
{
    let mut r: Vec<Vec<i64>> = Vec::new();
    let mut k: usize = 0;
    while k < arrivals.len()
        invariant
            k <= arrivals@.len(),
            r@.len() == k,
            forall|j: int| 0 <= j < k ==> (#[trigger] r@[j])@ == arrivals@[j]@,
        decreases arrivals@.len() - k,
    {
        let mut row: Vec<i64> = Vec::new();
        row.extend_from_slice(arrivals[k].as_slice());
        assert(row@ =~= arrivals@[k as int]@);
        r.push(row);
        k += 1;
    }
    assert(crate::forecast::rows(r@) =~= crate::forecast::rows(arrivals@));
    r
}

/// What each player makes and loses over a planet.
pub struct Terms {
    pub made: Vec<i64>,
    pub lost: Vec<i64>,
}

impl Terms {
    /// The terms are those of `f` for `a` players.
    pub open spec fn of(self, f: Forecast, a: nat) -> bool {
        &&& self.made@.len() == a
        &&& self.lost@.len() == a
        &&& forall|p: int| 0 <= p < a ==> #[trigger] self.made@[p] == f.made(p, f.horizon() as nat)
        &&& forall|p: int| 0 <= p < a ==> #[trigger] self.lost@[p] == f.lost(p, f.horizon() as nat)
    }
}

fn base_terms(pr: &Projection, a: usize) -> (t: Terms)
    requires
        a <= i64::MAX,
        exists|h: int| pr.valid(h, a as nat),
        pr.forecast().init.owner < a,
    ensures
        t.of(pr.forecast(), a as nat),
{
    let (made, lost) = flow_terms_single(&pr.course, &pr.arrivals, pr.prod, &pr.alive, a, Ghost(pr.forecast()));
    Terms { made, lost }
}

/// The terms of the source once `ships` have left it.
fn debited_terms(pr: &Projection, a: usize, ships: i64) -> (t: Terms)
    requires
        a <= i64::MAX,
        exists|h: int| pr.valid(h, a as nat),
        pr.forecast().init.owner < a,
        pr.forecast().reach() - ships <= SHIP_LIMIT,
    ensures
        t.of(debited(pr.forecast(), ships as int), a as nat),
{
    let ghost f = debited(pr.forecast(), ships as int);
    proof {
        assert(f.valid(a as nat));
        lemma_room_at_start(pr.forecast(), a as nat);
    }
    let here: i64 = pr.course.ships[0];
    let left: i64 = if here < ships {
        0
    } else {
        here - ships
    };
    let course = planet_trajectory(pr.course.owner[0], left, pr.prod, &pr.alive, &pr.arrivals, Ghost(a as nat));
    let (made, lost) = flow_terms_single(&course, &pr.arrivals, pr.prod, &pr.alive, a, Ghost(f));
    Terms { made, lost }
}

/// The terms of the target once `ships` of `player` land on it at `eta`.
fn credited_terms(pr: &Projection, a: usize, player: usize, ships: i64, eta: usize) -> (t: Terms)
    requires
        a <= i64::MAX,
        player < a,
        exists|h: int| pr.valid(h, a as nat),
        pr.forecast().init.owner < a,
        eta <= pr.forecast().horizon(),
        pr.forecast().reach() + ships <= SHIP_LIMIT,
    ensures
        t.of(credited(pr.forecast(), player as int, ships as int, eta as int), a as nat),
{
    let ghost base = pr.forecast();
    let ghost f = credited(base, player as int, ships as int, eta as int);
    proof {
        lemma_credited(base, a as nat, player as int, ships as int, eta as int);
        assert(base.arrivals[eta as int].len() == a);
    }
    let mut arrivals = copy_rows(&pr.arrivals);
    assert(crate::forecast::rows(arrivals@)[eta as int] == arrivals@[eta as int]@);
    assert(crate::forecast::rows(arrivals@).len() == arrivals@.len());
    let sum: i64 = arrivals[eta][player] + ships;
    let more: i64 = if sum < 0 {
        0
    } else {
        sum
    };
    let ghost before = arrivals@;
    arrivals[eta][player] = more;
    assert(crate::forecast::rows(arrivals@) =~= f.arrivals) by {
        assert forall|k: int| 0 <= k < arrivals@.len() implies #[trigger] crate::forecast::rows(arrivals@)[k]
            == f.arrivals[k] by {
            assert(crate::forecast::rows(before)[k] == before[k]@);
        }
    }
    let course = planet_trajectory(
        pr.course.owner[0],
        pr.course.ships[0],
        pr.prod,
        &pr.alive,
        &arrivals,
        Ghost(a as nat),
    );
    let (made, lost) = flow_terms_single(&course, &arrivals, pr.prod, &pr.alive, a, Ghost(f));
    Terms { made, lost }
}

fn row_total(row: &Vec<i64>) -> (t: i64)
    requires
        crate::forecast::counts(row@),
        crate::forecast::row_sum(row@) <= i64::MAX,
    ensures
        t == crate::forecast::row_sum(row@),
{
    let mut t: i64 = 0;
    let mut i: usize = 0;
    assert(row@.take(0) =~= Seq::<i64>::empty());
    while i < row.len()
        invariant
            i <= row@.len(),
            crate::forecast::counts(row@),
            crate::forecast::row_sum(row@) <= i64::MAX,
            t == crate::forecast::row_sum(row@.take(i as int)),
        decreases row@.len() - i,
    {
        proof {
            assert(row@.take(i + 1).drop_last() =~= row@.take(i as int));
            lemma_row_part(row@, i + 1);
            lemma_row_part(row@, i as int);
        }
        t = t + row[i];
        i += 1;
    }
    assert(row@.take(i as int) =~= row@);
    t
}

proof fn lemma_row_part(row: Seq<i64>, n: int)
    requires
        crate::forecast::counts(row),
        0 <= n <= row.len(),
    ensures
        0 <= crate::forecast::row_sum(row.take(n)) <= crate::forecast::row_sum(row),
    decreases row.len() - n,
{
    if n < row.len() {
        lemma_row_part(row, n + 1);
        assert(row.take(n + 1).drop_last() =~= row.take(n));
        assert(row[n] >= 0);
    } else {
        assert(row.take(n) =~= row);
    }
    assert forall|b: int| 0 <= b < n implies #[trigger] row.take(n)[b] >= 0 by {
        assert(row[b] >= 0);
    }
    crate::forecast::lemma_party(row.take(n));
}

/// Whether `ships` more can be counted wherever they land on planet `tgt_idx`.
pub fn launch_fits(status: &GarrisonStatus, tgt_idx: usize, ships: i64) -> (r: bool)
    requires
        status.valid(),
        tgt_idx < status.p,
    ensures
        r == (status.planets@[tgt_idx as int].forecast().reach() + ships <= SHIP_LIMIT),
{
    let pr = &status.planets[tgt_idx];
    let ghost f = pr.forecast();
    assert(pr.valid(status.h as int, status.a as nat));
    let mut landing: i64 = 0;
    let mut k: usize = 0;
    proof {
        assert(0 <= f.prod * f.horizon()) by (nonlinear_arith)
            requires
                f.prod >= 0,
                f.horizon() >= 0,
        ;
        crate::forecast::lemma_landing_total(f.arrivals, f.arrivals.len(), f.arrivals.len());
    }
    while k < pr.arrivals.len()
        invariant
            k <= pr.arrivals@.len(),
            f.arrivals == crate::forecast::rows(pr.arrivals@),
            f.valid(status.a as nat),
            crate::forecast::landing_total(f.arrivals, f.arrivals.len()) <= SHIP_LIMIT,
            landing == crate::forecast::landing_total(f.arrivals, k as nat),
        decreases pr.arrivals@.len() - k,
    {
        proof {
            crate::forecast::lemma_landing_total(f.arrivals, (k + 1) as nat, f.arrivals.len());
            crate::forecast::lemma_landing_total(f.arrivals, k as nat, (k + 1) as nat);
            assert(f.arrivals[k as int] == pr.arrivals@[k as int]@);
            assert(crate::forecast::counts(f.arrivals[k as int]));
        }
        landing = landing + row_total(&pr.arrivals[k]);
        k += 1;
    }
    let made: i64 = pr.prod * status.h as i64;
    let reach: i64 = pr.course.ships[0] + made + landing;
    ships <= SHIP_LIMIT - reach
}

/// The terms that decide what a launch is worth: source and target, without it
/// and with it.
struct LaunchTerms {
    src: Terms,
    src_with: Terms,
    tgt: Terms,
    tgt_with: Terms,
}

impl LaunchTerms {
    spec fn of(self, src: Forecast, tgt: Forecast, player: int, n: int, eta: int, a: nat) -> bool {
        &&& self.src.of(src, a)
        &&& self.src_with.of(debited(src, n), a)
        &&& self.tgt.of(tgt, a)
        &&& self.tgt_with.of(credited(tgt, player, n, eta), a)
    }
}

fn launch_terms(
    status: &GarrisonStatus,
    src_idx: usize,
    tgt_idx: usize,
    ships: i64,
    eta: usize,
    player_id: usize,
) -> (t: LaunchTerms)
    requires
        status.valid(),
        src_idx < status.p,
        tgt_idx < status.p,
        status.planets@[src_idx as int].forecast().init.owner < status.a,
        status.planets@[tgt_idx as int].forecast().init.owner < status.a,
        player_id < status.a,
        eta <= status.h,
        status.planets@[src_idx as int].forecast().reach() - ships <= SHIP_LIMIT,
        status.planets@[tgt_idx as int].forecast().reach() + ships <= SHIP_LIMIT,
    ensures
        t.of(
            status.planets@[src_idx as int].forecast(),
            status.planets@[tgt_idx as int].forecast(),
            player_id as int,
            ships as int,
            eta as int,
            status.a as nat,
        ),
{
    let src = &status.planets[src_idx];
    let tgt = &status.planets[tgt_idx];
    assert(src.valid(status.h as int, status.a as nat));
    assert(tgt.valid(status.h as int, status.a as nat));
    LaunchTerms {
        src: base_terms(src, status.a),
        src_with: debited_terms(src, status.a, ships),
        tgt: base_terms(tgt, status.a),
        tgt_with: credited_terms(tgt, status.a, player_id, ships, eta),
    }
}

/// What player `p` gains by the launch.
fn gain(t: &LaunchTerms, p: usize, Ghost(c): Ghost<(Forecast, Forecast, int, int, int, nat)>) -> (d: i64)
    requires
        t.of(c.0, c.1, c.2, c.3, c.4, c.5),
        p < c.5,
        0 <= c.2 < c.5,
        0 <= c.4 <= c.1.horizon(),
        c.0.valid(c.5),
        c.1.valid(c.5),
        c.0.reach() <= SHIP_LIMIT,
        c.0.reach() - c.3 <= SHIP_LIMIT,
        c.1.reach() <= SHIP_LIMIT,
        c.1.reach() + c.3 <= SHIP_LIMIT,
    ensures
        d == net_change(c.0, c.1, c.2, c.3, c.4, p as int),
        -16 * SHIP_LIMIT <= d <= 16 * SHIP_LIMIT,
{
    proof {
        lemma_credited(c.1, c.5, c.2, c.3, c.4);
        lemma_net_bound(c.0, c.5, p as int);
        lemma_net_bound(debited(c.0, c.3), c.5, p as int);
        lemma_net_bound(c.1, c.5, p as int);
        lemma_net_bound(credited(c.1, c.2, c.3, c.4), c.5, p as int);
        assert(t.src.made@[p as int] == c.0.made(p as int, c.0.horizon() as nat));
        assert(t.src.lost@[p as int] == c.0.lost(p as int, c.0.horizon() as nat));
        assert(t.src_with.made@[p as int] == debited(c.0, c.3).made(p as int, c.0.horizon() as nat));
        assert(t.src_with.lost@[p as int] == debited(c.0, c.3).lost(p as int, c.0.horizon() as nat));
        assert(t.tgt.made@[p as int] == c.1.made(p as int, c.1.horizon() as nat));
        assert(t.tgt.lost@[p as int] == c.1.lost(p as int, c.1.horizon() as nat));
        assert(t.tgt_with.made@[p as int] == credited(c.1, c.2, c.3, c.4).made(p as int, c.1.horizon() as nat));
        assert(t.tgt_with.lost@[p as int] == credited(c.1, c.2, c.3, c.4).lost(p as int, c.1.horizon() as nat));
    }
    let made: i64 = (t.src_with.made[p] - t.src.made[p]) + (t.tgt_with.made[p] - t.tgt.made[p]);
    let lost: i64 = (t.src_with.lost[p] - t.src.lost[p]) + (t.tgt_with.lost[p] - t.tgt.lost[p]);
    made - lost
}

/// What it is worth to `player_id` to send `ships` from planet `src_idx`, so
/// that they reach planet `tgt_idx` at step `eta`. A launch of no ships, or one
/// that arrives at once or past the horizon, is worth nothing that can be
/// compared.
pub fn score_launch(
    status: &GarrisonStatus,
    src_idx: usize,
    tgt_idx: usize,
    ships: i64,
    eta: usize,
    player_id: usize,
) -> (score: Option<i128>)
    requires
        status.valid(),
        src_idx < status.p,
        tgt_idx < status.p,
        status.planets@[src_idx as int].forecast().init.owner < status.a,
        status.planets@[tgt_idx as int].forecast().init.owner < status.a,
        player_id < status.a,
        status.planets@[tgt_idx as int].forecast().reach() + ships <= SHIP_LIMIT,
    ensures
        match score {
            Some(v) => ships > 0 && 0 < eta <= status.h && v == launch_score(
                status.planets@[src_idx as int].forecast(),
                status.planets@[tgt_idx as int].forecast(),
                player_id as int,
                ships as int,
                eta as int,
                status.a as nat,
            ),
            None => ships <= 0 || eta == 0 || eta > status.h,
        },
        score matches Some(v) ==> -0x4000_0000_0000_0000_0000_0000_0000_0000 < v
            < 0x4000_0000_0000_0000_0000_0000_0000_0000,
{
    if ships <= 0 || eta == 0 || eta > status.h {
        return None;
    }
    let a: usize = status.a;
    let ghost src = status.planets@[src_idx as int].forecast();
    let ghost tgt = status.planets@[tgt_idx as int].forecast();
    assert(status.planets@[src_idx as int].valid(status.h as int, a as nat));
    assert(status.planets@[tgt_idx as int].valid(status.h as int, a as nat));
    let t = launch_terms(status, src_idx, tgt_idx, ships, eta, player_id);
    let mut sum: i128 = 0;
    let mut own: i128 = 0;
    let mut p: usize = 0;
    while p < a
        invariant
            p <= a,
            a <= i64::MAX,
            player_id < a,
            ships > 0,
            t.of(src, tgt, player_id as int, ships as int, eta as int, a as nat),
            eta <= tgt.horizon(),
            src.valid(a as nat),
            tgt.valid(a as nat),
            src.reach() <= SHIP_LIMIT,
            tgt.reach() <= SHIP_LIMIT,
            tgt.reach() + ships <= SHIP_LIMIT,
            sum == change_sum(src, tgt, player_id as int, ships as int, eta as int, p as nat),
            -144115188075855872 * p <= sum <= 144115188075855872 * p,
            p > player_id ==> own == net_change(
                src,
                tgt,
                player_id as int,
                ships as int,
                eta as int,
                player_id as int,
            ),
            -16 * SHIP_LIMIT <= own <= 16 * SHIP_LIMIT,
        decreases a - p,
    {
        let d: i64 = gain(&t, p, Ghost((src, tgt, player_id as int, ships as int, eta as int, a as nat)));
        sum = sum + d as i128;
        if p == player_id {
            own = d as i128;
        }
        p += 1;
    }
    Some(own - (sum - own))
}

/// The values of `v` for `a` players.
pub open spec fn per_player(v: spec_fn(int) -> int, a: nat) -> Seq<i64> {
    Seq::new(a, |p: int| v(p) as i64)
}

/// What each player gains by the launch, followed by what each makes and loses
/// over the source without and with the launch, and over the target without and
/// with the launch.
pub open spec fn launch_breakdown(src: Forecast, tgt: Forecast, player: int, n: int, eta: int, a: nat) -> Seq<i64> {
    let src_with = debited(src, n);
    let tgt_with = credited(tgt, player, n, eta);
    let h = src.horizon() as nat;
    per_player(|p: int| net_change(src, tgt, player, n, eta, p), a) + per_player(|p: int| src.made(p, h), a)
        + per_player(|p: int| src.lost(p, h), a) + per_player(|p: int| src_with.made(p, h), a) + per_player(
        |p: int| src_with.lost(p, h),
        a,
    ) + per_player(|p: int| tgt.made(p, h), a) + per_player(|p: int| tgt.lost(p, h), a) + per_player(
        |p: int| tgt_with.made(p, h),
        a,
    ) + per_player(|p: int| tgt_with.lost(p, h), a)
}

proof fn lemma_gain_bound(src: Forecast, tgt: Forecast, player: int, n: int, eta: int, a: nat, p: int)
    requires
        0 <= p < a,
        0 <= player < a,
        0 <= eta <= tgt.horizon(),
        src.valid(a),
        tgt.valid(a),
        src.reach() <= SHIP_LIMIT,
        src.reach() - n <= SHIP_LIMIT,
        tgt.reach() <= SHIP_LIMIT,
        tgt.reach() + n <= SHIP_LIMIT,
    ensures
        -16 * SHIP_LIMIT <= net_change(src, tgt, player, n, eta, p) <= 16 * SHIP_LIMIT,
{
    lemma_credited(tgt, a, player, n, eta);
    lemma_net_bound(src, a, p);
    lemma_net_bound(debited(src, n), a, p);
    lemma_net_bound(tgt, a, p);
    lemma_net_bound(credited(tgt, player, n, eta), a, p);
}

proof fn lemma_change_bound(src: Forecast, tgt: Forecast, player: int, n: int, eta: int, a: nat, k: nat)
    requires
        k <= a,
        0 <= player < a,
        0 <= eta <= tgt.horizon(),
        src.valid(a),
        tgt.valid(a),
        src.reach() <= SHIP_LIMIT,
        src.reach() - n <= SHIP_LIMIT,
        tgt.reach() <= SHIP_LIMIT,
        tgt.reach() + n <= SHIP_LIMIT,
    ensures
        -144115188075855872 * k <= change_sum(src, tgt, player, n, eta, k) <= 144115188075855872 * k,
    decreases k,
{
    if k > 0 {
        lemma_change_bound(src, tgt, player, n, eta, a, (k - 1) as nat);
        lemma_gain_bound(src, tgt, player, n, eta, a, k - 1);
    }
}

/// What a launch is worth can be counted.
pub proof fn lemma_score_bounds(src: Forecast, tgt: Forecast, player: int, n: int, eta: int, a: nat)
    requires
        a <= i64::MAX,
        0 <= player < a,
        0 <= eta <= tgt.horizon(),
        src.valid(a),
        tgt.valid(a),
        src.reach() <= SHIP_LIMIT,
        src.reach() - n <= SHIP_LIMIT,
        tgt.reach() <= SHIP_LIMIT,
        tgt.reach() + n <= SHIP_LIMIT,
    ensures
        -0x4000_0000_0000_0000_0000_0000_0000_0000 < launch_score(src, tgt, player, n, eta, a)
            < 0x4000_0000_0000_0000_0000_0000_0000_0000,
{
    lemma_change_bound(src, tgt, player, n, eta, a, a);
    lemma_gain_bound(src, tgt, player, n, eta, a, player);
}

/// What a launch is worth is what the player gains by it, less what each other player
/// gains: in the launch taken apart, the player's own number less all others.
pub proof fn lemma_score_of_gains(src: Forecast, tgt: Forecast, player: int, n: int, eta: int, a: nat)
    requires
        0 <= player < a,
        0 <= eta <= tgt.horizon(),
        src.valid(a),
        tgt.valid(a),
        src.reach() <= SHIP_LIMIT,
        src.reach() - n <= SHIP_LIMIT,
        tgt.reach() <= SHIP_LIMIT,
        tgt.reach() + n <= SHIP_LIMIT,
    ensures
        ({
            let gains = launch_breakdown(src, tgt, player, n, eta, a).take(a as int);
            launch_score(src, tgt, player, n, eta, a) == gains[player] - crate::forecast::row_sum(
                gains.remove(player),
            )
        }),
{
    let gains = launch_breakdown(src, tgt, player, n, eta, a).take(a as int);
    assert(gains =~= per_player(|p: int| net_change(src, tgt, player, n, eta, p), a));
    assert forall|p: int| 0 <= p < a implies #[trigger] gains[p] == net_change(src, tgt, player, n, eta, p) by {
        lemma_gain_bound(src, tgt, player, n, eta, a, p);
    }
    lemma_sum_of_gains(gains, src, tgt, player, n, eta, a);
    assert(gains.take(a as int) =~= gains);
    lemma_sum_without(gains, player);
}

/// What a launch changes for a player is what it makes more and loses less over the two
/// planets than without the launch; sending nothing changes nothing.
pub proof fn lemma_net_change(src: Forecast, tgt: Forecast, player: int, n: int, eta: int, of: int)
    requires
        0 <= player < tgt.arrivals[eta].len(),
        0 <= eta < tgt.arrivals.len(),
    ensures
        ({
            let less = debited(src, n);
            let more = credited(tgt, player, n, eta);
            let h = src.horizon() as nat;
            let k = tgt.horizon() as nat;
            net_change(src, tgt, player, n, eta, of) == less.made(of, h) - src.made(of, h) + src.lost(of, h)
                - less.lost(of, h) + more.made(of, k) - tgt.made(of, k) + tgt.lost(of, k) - more.lost(of, k)
        }),
        src.init.ships >= 0 && tgt.arrivals[eta][player] >= 0 ==> net_change(src, tgt, player, 0, eta, of) == 0,
{
    let row = tgt.arrivals[eta];
    if src.init.ships >= 0 && row[player] >= 0 {
        assert(debited(src, 0) =~= src);
        assert(row.update(player, row[player]) =~= row);
        assert(credited(tgt, player, 0, eta).arrivals =~= tgt.arrivals);
        assert(credited(tgt, player, 0, eta) =~= tgt);
    }
}

/// The launch taken apart has nine numbers for each player: what it gains; then what it
/// makes and loses over the source as it is, over the source without the ships, over the
/// target as it is, and over the target with the ships.
pub proof fn lemma_breakdown(src: Forecast, tgt: Forecast, player: int, n: int, eta: int, a: nat, p: int)
    requires
        0 <= p < a,
    ensures
        ({
            let out = launch_breakdown(src, tgt, player, n, eta, a);
            let less = debited(src, n);
            let more = credited(tgt, player, n, eta);
            let h = src.horizon() as nat;
            &&& out.len() == 9 * a
            &&& out[p] == net_change(src, tgt, player, n, eta, p) as i64
            &&& out[a + p] == src.made(p, h) as i64
            &&& out[2 * a + p] == src.lost(p, h) as i64
            &&& out[3 * a + p] == less.made(p, h) as i64
            &&& out[4 * a + p] == less.lost(p, h) as i64
            &&& out[5 * a + p] == tgt.made(p, h) as i64
            &&& out[6 * a + p] == tgt.lost(p, h) as i64
            &&& out[7 * a + p] == more.made(p, h) as i64
            &&& out[8 * a + p] == more.lost(p, h) as i64
        }),
{
}

proof fn lemma_sum_of_gains(gains: Seq<i64>, src: Forecast, tgt: Forecast, player: int, n: int, eta: int, k: nat)
    requires
        k <= gains.len(),
        forall|p: int| 0 <= p < gains.len() ==> #[trigger] gains[p] == net_change(src, tgt, player, n, eta, p),
    ensures
        crate::forecast::row_sum(gains.take(k as int)) == change_sum(src, tgt, player, n, eta, k),
    decreases k,
{
    if k > 0 {
        lemma_sum_of_gains(gains, src, tgt, player, n, eta, (k - 1) as nat);
        assert(gains.take(k as int).drop_last() =~= gains.take(k - 1));
        assert(gains[k - 1] == net_change(src, tgt, player, n, eta, k - 1));
    }
}

proof fn lemma_sum_without(row: Seq<i64>, p: int)
    requires
        0 <= p < row.len(),
    ensures
        crate::forecast::row_sum(row.remove(p)) == crate::forecast::row_sum(row) - row[p],
    decreases row.len(),
{
    let front = row.drop_last();
    if p < front.len() {
        lemma_sum_without(front, p);
        assert(row.remove(p).drop_last() =~= front.remove(p));
        assert(row.remove(p).last() == row.last());
    } else {
        assert(row.remove(p) =~= front);
    }
}

/// The launch taken apart: see `launch_breakdown`.
pub fn score_launch_delta(
    status: &GarrisonStatus,
    src_idx: usize,
    tgt_idx: usize,
    ships: i64,
    eta: usize,
    player_id: usize,
) -> (out: Vec<i64>)
    requires
        status.valid(),
        src_idx < status.p,
        tgt_idx < status.p,
        status.planets@[src_idx as int].forecast().init.owner < status.a,
        status.planets@[tgt_idx as int].forecast().init.owner < status.a,
        player_id < status.a,
        eta <= status.h,
        status.planets@[src_idx as int].forecast().reach() - ships <= SHIP_LIMIT,
        status.planets@[tgt_idx as int].forecast().reach() + ships <= SHIP_LIMIT,
    ensures
        out@ == launch_breakdown(
            status.planets@[src_idx as int].forecast(),
            status.planets@[tgt_idx as int].forecast(),
            player_id as int,
            ships as int,
            eta as int,
            status.a as nat,
        ),
{
    let a: usize = status.a;
    let ghost src = status.planets@[src_idx as int].forecast();
    let ghost tgt = status.planets@[tgt_idx as int].forecast();
    assert(status.planets@[src_idx as int].valid(status.h as int, a as nat));
    assert(status.planets@[tgt_idx as int].valid(status.h as int, a as nat));
    let mut t = launch_terms(status, src_idx, tgt_idx, ships, eta, player_id);
    let mut out: Vec<i64> = Vec::new();
    let mut p: usize = 0;
    while p < a
        invariant
            p <= a,
            a <= i64::MAX,
            player_id < a,
            t.of(src, tgt, player_id as int, ships as int, eta as int, a as nat),
            eta <= tgt.horizon(),
            src.valid(a as nat),
            tgt.valid(a as nat),
            src.reach() <= SHIP_LIMIT,
            src.reach() - ships <= SHIP_LIMIT,
            tgt.reach() <= SHIP_LIMIT,
            tgt.reach() + ships <= SHIP_LIMIT,
            out@.len() == p,
            forall|q: int|
                0 <= q < p ==> #[trigger] out@[q] == net_change(
                    src,
                    tgt,
                    player_id as int,
                    ships as int,
                    eta as int,
                    q,
                ),
        decreases a - p,
    {
        out.push(gain(&t, p, Ghost((src, tgt, player_id as int, ships as int, eta as int, a as nat))));
        p += 1;
    }
    let ghost h = src.horizon() as nat;
    let ghost src_with = debited(src, ships as int);
    let ghost tgt_with = credited(tgt, player_id as int, ships as int, eta as int);
    assert(out@ =~= per_player(
        |p: int| net_change(src, tgt, player_id as int, ships as int, eta as int, p),
        a as nat,
    ));
    assert(t.src.made@ =~= per_player(|p: int| src.made(p, h), a as nat));
    assert(t.src.lost@ =~= per_player(|p: int| src.lost(p, h), a as nat));
    assert(t.src_with.made@ =~= per_player(|p: int| src_with.made(p, h), a as nat));
    assert(t.src_with.lost@ =~= per_player(|p: int| src_with.lost(p, h), a as nat));
    assert(t.tgt.made@ =~= per_player(|p: int| tgt.made(p, h), a as nat));
    assert(t.tgt.lost@ =~= per_player(|p: int| tgt.lost(p, h), a as nat));
    assert(t.tgt_with.made@ =~= per_player(|p: int| tgt_with.made(p, h), a as nat));
    assert(t.tgt_with.lost@ =~= per_player(|p: int| tgt_with.lost(p, h), a as nat));
    out.append(&mut t.src.made);
    out.append(&mut t.src.lost);
    out.append(&mut t.src_with.made);
    out.append(&mut t.src_with.lost);
    out.append(&mut t.tgt.made);
    out.append(&mut t.tgt.lost);
    out.append(&mut t.tgt_with.made);
    out.append(&mut t.tgt_with.lost);
    out
}

/// The ships that `player` needs to hold the planet at step `eta`: one where it
/// holds the planet then anyway, and else `overhead` more than the defenders.
pub open spec fn ships_needed(f: Forecast, player: int, eta: nat, overhead: int) -> int {
    if f.after(eta).owner == player {
        1
    } else {
        f.after(eta).ships + overhead
    }
}

/// The status says who holds planet `i` at step `k`, and with how many ships.
pub open spec fn says(status: GarrisonStatus, i: int, k: int) -> bool {
    &&& 0 <= i < status.planets@.len()
    &&& k < status.planets@[i].course.owner@.len()
    &&& k < status.planets@[i].course.ships@.len()
}

/// A projection says of every step what the forecast says of it.
pub proof fn lemma_says(status: GarrisonStatus, i: int, k: int)
    requires
        status.valid(),
        0 <= i < status.p,
        0 <= k <= status.h,
    ensures
        says(status, i, k),
        status.planets@[i].course.owner@[k] == status.planets@[i].forecast().after(k as nat).owner,
        status.planets@[i].course.ships@[k] == status.planets@[i].forecast().after(k as nat).ships,
        0 <= status.planets@[i].course.ships@[k] <= SHIP_LIMIT,
{
    let pr = status.planets@[i];
    assert(pr.valid(status.h as int, status.a as nat));
    crate::forecast::lemma_within(pr.forecast(), status.a as nat, k as nat);
    crate::forecast::lemma_after(pr.forecast(), status.a as nat, k as nat);
    assert(pr.course.owner@[k] == pr.forecast().after(k as nat).owner);
}

/// The least number of ships that takes the planet at step `eta`. 0 where `eta` is
/// now or past the horizon.
pub fn capture_floor(
    status: &GarrisonStatus,
    tgt_idx: usize,
    eta: usize,
    player_id: usize,
    overhead: i64,
) -> (floor: i64)
    requires
        0 < eta <= status.h ==> {
            &&& says(*status, tgt_idx as int, eta as int)
            &&& i64::MIN <= status.planets@[tgt_idx as int].course.ships@[eta as int] + overhead <= i64::MAX
        },
    ensures
        floor == (if eta == 0 || eta > status.h {
            0
        } else if status.planets@[tgt_idx as int].course.owner@[eta as int] == player_id {
            1
        } else {
            status.planets@[tgt_idx as int].course.ships@[eta as int] + overhead
        }),
        status.valid() && tgt_idx < status.p && 0 < eta <= status.h ==> floor == ships_needed(
            status.planets@[tgt_idx as int].forecast(),
            player_id as int,
            eta as nat,
            overhead as int,
        ),
{
    if eta == 0 || eta > status.h {
        return 0;
    }
    let pr = &status.planets[tgt_idx];
    proof {
        if status.valid() && tgt_idx < status.p {
            lemma_says(*status, tgt_idx as int, eta as int);
        }
    }
    let owner: i64 = pr.course.owner[eta];
    if owner >= 0 && owner as u64 == player_id as u64 {
        return 1;
    }
    pr.course.ships[eta] + overhead
}

/// Where only one player has ships in `row`, all of them are left.
proof fn lemma_alone(row: Seq<i64>, player: int)
    requires
        crate::forecast::counts(row),
        0 <= player < row.len(),
        forall|b: int| 0 <= b < row.len() && b != player ==> #[trigger] row[b] == 0,
    ensures
        crate::forecast::party(row) == (if row[player] > 0 {
            (player, row[player] as int)
        } else {
            (-1int, 0int)
        }),
{
    crate::forecast::lemma_best_other(row, player, row.len());
    assert(crate::forecast::best_other(row, player, row.len()) == 0);
    crate::forecast::lemma_party(row);
    if row[player] > 0 {
        assert(crate::forecast::margin(row, player) > 0);
        let a = choose|a: int| 0 <= a < row.len() && #[trigger] crate::forecast::margin(row, a) > 0;
        crate::forecast::lemma_one_party(row, a, player);
    } else {
        assert forall|a: int| 0 <= a < row.len() implies #[trigger] crate::forecast::margin(row, a) <= 0 by {
            crate::forecast::lemma_best_other(row, a, row.len());
        }
    }
}

/// Where no other player lands at step `eta`, the ships needed are the least that
/// give `player` the planet then. Sending none is left out where the planet is the
/// player's anyway.
pub proof fn lemma_ships_needed(f: Forecast, a: nat, player: int, n: int, eta: int)
    requires
        f.valid(a),
        0 <= player < a,
        1 <= eta <= f.horizon(),
        f.alive[eta],
        forall|b: int| 0 <= b < a && b != player ==> #[trigger] f.arrivals[eta][b] == 0,
        n >= 1 || (n == 0 && f.after(eta as nat).owner != player),
        f.arrivals[eta][player] + n <= i64::MAX,
    ensures
        credited(f, player, n, eta).after(eta as nat).owner == player <==> n >= ships_needed(
            f,
            player,
            eta as nat,
            1,
        ),
{
    let c = credited(f, player, n, eta);
    let row = f.arrivals[eta];
    let more = c.arrivals[eta];
    assert(crate::forecast::counts(row) && row.len() == a);
    assert(row[player] >= 0);
    assert(crate::forecast::counts(more) && more.len() == a) by {
        assert forall|b: int| 0 <= b < more.len() implies #[trigger] more[b] >= 0 by {
            if b != player {
                assert(row[b] >= 0);
            }
        }
    }
    lemma_alone(row, player);
    assert forall|b: int| 0 <= b < a && b != player implies #[trigger] more[b] == 0 by {
        assert(row[b] == 0);
    }
    lemma_alone(more, player);
    lemma_unchanged(f, player, n, eta, (eta - 1) as nat);
    crate::forecast::lemma_after(f, a, eta as nat);
}

/// Ships that land at step `eta` change nothing before it.
proof fn lemma_unchanged(f: Forecast, player: int, n: int, eta: int, k: nat)
    requires
        k < eta < f.arrivals.len(),
    ensures
        credited(f, player, n, eta).after(k) == f.after(k),
    decreases k,
{
    if k > 0 {
        lemma_unchanged(f, player, n, eta, (k - 1) as nat);
    }
}

/// The fewest ships that `player` has on the planet at a step from 1 to `n` at
/// which it holds the planet; `None` where there is no such step.
pub open spec fn tightest(f: Forecast, player: int, n: nat) -> Option<int>
    decreases n,
{
    if n == 0 {
        None
    } else {
        let before = tightest(f, player, (n - 1) as nat);
        let now = f.after(n);
        if now.owner == player {
            match before {
                Some(s) => if now.ships < s {
                    Some(now.ships)
                } else {
                    Some(s)
                },
                None => Some(now.ships),
            }
        } else {
            before
        }
    }
}

/// The most ships that can leave the planet now so that none is missing at any
/// step at which `player` holds it; all of them where it never will.
pub open spec fn safe_drain(f: Forecast, player: int, n: nat) -> int {
    match tightest(f, player, n) {
        Some(s) => if s < f.init.ships {
            s
        } else {
            f.init.ships
        },
        None => f.init.ships,
    }
}

/// What can leave is some of what is there.
pub proof fn lemma_drain_bounds(f: Forecast, a: nat, player: int, n: nat)
    requires
        f.valid(a),
        n <= f.horizon(),
    ensures
        0 <= safe_drain(f, player, n) <= f.init.ships,
{
    lemma_tightest(f, a, player, n);
}

/// The fewest of `ships` at a step from 1 to `n` at which `player` is the owner;
/// `None` where there is no such step.
pub open spec fn fewest(owner: Seq<i64>, ships: Seq<i64>, player: int, n: nat) -> Option<int>
    decreases n,
{
    if n == 0 {
        None
    } else {
        let before = fewest(owner, ships, player, (n - 1) as nat);
        if owner[n as int] == player {
            match before {
                Some(s) => if ships[n as int] < s {
                    Some(ships[n as int] as int)
                } else {
                    Some(s)
                },
                None => Some(ships[n as int] as int),
            }
        } else {
            before
        }
    }
}

/// The most that can leave a course of `ships` so that none of the steps at which
/// `player` is the owner is left with less than nothing: all where there is none.
pub open spec fn course_drain(owner: Seq<i64>, ships: Seq<i64>, player: int, n: nat) -> int {
    match fewest(owner, ships, player, n) {
        Some(s) => if s < 0 || ships[0] < 0 {
            0
        } else if s < ships[0] {
            s
        } else {
            ships[0] as int
        },
        None => ships[0] as int,
    }
}

/// What a player has at the fewest is no more than it has at any step at which it holds
/// the planet, and as many as it has at one of them.
pub proof fn lemma_fewest_least(owner: Seq<i64>, ships: Seq<i64>, player: int, n: nat)
    ensures
        match fewest(owner, ships, player, n) {
            Some(s) => (forall|k: int| 1 <= k <= n && #[trigger] owner[k] == player ==> s <= ships[k]) && exists|k: int|
                1 <= k <= n && #[trigger] owner[k] == player && s == ships[k],
            None => forall|k: int| 1 <= k <= n ==> #[trigger] owner[k] != player,
        },
    decreases n,
{
    if n > 0 {
        lemma_fewest_least(owner, ships, player, (n - 1) as nat);
        if owner[n as int] == player {
            assert(owner[n as int] == player);
        }
    }
}

/// What can leave a projected course is what the forecast says.
proof fn lemma_fewest(status: GarrisonStatus, i: int, player: int, n: nat)
    requires
        status.valid(),
        0 <= i < status.p,
        n <= status.h,
    ensures
        fewest(status.planets@[i].course.owner@, status.planets@[i].course.ships@, player, n) == tightest(
            status.planets@[i].forecast(),
            player,
            n,
        ),
    decreases n,
{
    lemma_says(status, i, n as int);
    if n > 0 {
        lemma_fewest(status, i, player, (n - 1) as nat);
    }
}

/// The last step looked at.
pub open spec fn look_ahead(status: GarrisonStatus, horizon: usize) -> nat {
    if horizon < status.h {
        horizon as nat
    } else {
        status.h as nat
    }
}

/// The ships that can safely leave planet `src_i` of `player_id` now, looking
/// `horizon` steps ahead.
pub fn safe_drain_planet(status: &GarrisonStatus, src_i: usize, player_id: usize, horizon: usize) -> (drain: i64)
    requires
        says(*status, src_i as int, look_ahead(*status, horizon) as int),
    ensures
        drain == course_drain(
            status.planets@[src_i as int].course.owner@,
            status.planets@[src_i as int].course.ships@,
            player_id as int,
            look_ahead(*status, horizon),
        ),
        status.valid() && src_i < status.p ==> drain == safe_drain(
            status.planets@[src_i as int].forecast(),
            player_id as int,
            look_ahead(*status, horizon),
        ) && 0 <= drain <= status.planets@[src_i as int].forecast().init.ships,
        status.valid() && src_i < status.p ==> {
            let course = status.planets@[src_i as int].course;
            &&& drain <= course.ships@[0]
            &&& forall|k: int|
                1 <= k <= look_ahead(*status, horizon) && #[trigger] course.owner@[k] == player_id ==> drain
                    <= course.ships@[k]
            &&& drain == course.ships@[0] || exists|k: int|
                1 <= k <= look_ahead(*status, horizon) && #[trigger] course.owner@[k] == player_id && drain
                    == course.ships@[k]
        },
{
    let h: usize = if horizon < status.h {
        horizon
    } else {
        status.h
    };
    let course = &status.planets[src_i].course;
    let mut slack: Option<i64> = None;
    let mut k: usize = 0;
    while k < h
        invariant
            k <= h,
            h < course.owner@.len(),
            h < course.ships@.len(),
            match slack {
                Some(s) => fewest(course.owner@, course.ships@, player_id as int, k as nat) == Some(s as int),
                None => fewest(course.owner@, course.ships@, player_id as int, k as nat) is None,
            },
        decreases h - k,
    {
        k += 1;
        let owner: i64 = course.owner[k];
        let ships: i64 = course.ships[k];
        if owner >= 0 && owner as u64 == player_id as u64 {
            slack = match slack {
                Some(s) => if ships < s {
                    Some(ships)
                } else {
                    Some(s)
                },
                None => Some(ships),
            };
        }
    }
    proof {
        if status.valid() && src_i < status.p {
            let f = status.planets@[src_i as int].forecast();
            assert(status.planets@[src_i as int].valid(status.h as int, status.a as nat));
            lemma_fewest(*status, src_i as int, player_id as int, h as nat);
            lemma_tightest(f, status.a as nat, player_id as int, h as nat);
            lemma_drain_bounds(f, status.a as nat, player_id as int, h as nat);
            lemma_fewest_least(course.owner@, course.ships@, player_id as int, h as nat);
        }
    }
    let now: i64 = course.ships[0];
    match slack {
        Some(s) => if s < 0 || now < 0 {
            0
        } else if s < now {
            s
        } else {
            now
        },
        None => now,
    }
}

/// Whether `player` holds the planet at every step up to `n`.
pub open spec fn held_throughout(f: Forecast, player: int, n: nat) -> bool {
    forall|k: nat| k <= n ==> (#[trigger] f.after(k)).owner == player
}

/// The fewest ships are those of a step, and no step at which the planet is held
/// has fewer.
proof fn lemma_tightest(f: Forecast, a: nat, player: int, n: nat)
    requires
        f.valid(a),
        n <= f.horizon(),
    ensures
        match tightest(f, player, n) {
            Some(s) => {
                &&& s >= 0
                &&& forall|k: nat| 1 <= k <= n && (#[trigger] f.after(k)).owner == player ==> f.after(k).ships >= s
                &&& exists|k: nat|
                    1 <= k <= n && (#[trigger] f.after(k)).owner == player && f.after(k).ships == s
            },
            None => forall|k: nat| 1 <= k <= n ==> (#[trigger] f.after(k)).owner != player,
        },
    decreases n,
{
    if n > 0 {
        lemma_tightest(f, a, player, (n - 1) as nat);
        crate::forecast::lemma_after(f, a, n);
    }
}

/// Where `player` holds the planet all along, with and without `d` ships fewer
/// at the start, it has `d` ships fewer at every step.
proof fn lemma_debited_course(f: Forecast, a: nat, player: int, d: int, k: nat)
    requires
        f.valid(a),
        k <= f.horizon(),
        player >= 0,
        0 <= d <= f.init.ships,
        forall|j: nat| j <= k ==> (#[trigger] f.after(j)).owner == player,
        forall|j: nat| j <= k ==> (#[trigger] debited(f, d).after(j)).owner == player,
    ensures
        debited(f, d).after(k).ships == f.after(k).ships - d,
    decreases k,
{
    if k > 0 {
        lemma_debited_course(f, a, player, d, (k - 1) as nat);
        assert(f.after((k - 1) as nat).owner == player);
        assert(debited(f, d).after((k - 1) as nat).owner == player);
        assert(f.after(k).owner == player);
        assert(debited(f, d).after(k).owner == player);
        crate::forecast::lemma_party(f.arrivals[k as int]);
    }
}

/// A planet can spare the safe drain: with that many ships fewer, `player` holds it
/// for as long as it did, and has no less than nothing there.
pub proof fn lemma_safe_drain(f: Forecast, a: nat, player: int, n: nat, k: nat)
    requires
        f.valid(a),
        n <= f.horizon(),
        player >= 0,
        k <= n,
        held_throughout(f, player, k),
    ensures
        debited(f, safe_drain(f, player, n)).after(k) == (Holding {
            owner: player,
            ships: f.after(k).ships - safe_drain(f, player, n),
        }),
        f.after(k).ships >= safe_drain(f, player, n) >= 0,
    decreases k,
{
    lemma_tightest(f, a, player, n);
    assert(f.after(0).owner == player);
    if k > 0 {
        lemma_safe_drain(f, a, player, n, (k - 1) as nat);
        assert(f.after(k).owner == player);
        assert(f.after((k - 1) as nat).owner == player);
        crate::forecast::lemma_after(f, a, k);
        crate::forecast::lemma_party(f.arrivals[k as int]);
    }
}

/// A planet that `player` holds all along can spare no more: with one ship fewer
/// still, `player` loses it.
pub proof fn lemma_drain_most(f: Forecast, a: nat, player: int, n: nat)
    requires
        f.valid(a),
        n <= f.horizon(),
        player >= 0,
        held_throughout(f, player, n),
        safe_drain(f, player, n) < f.init.ships,
    ensures
        exists|k: nat| k <= n && (#[trigger] debited(f, safe_drain(f, player, n) + 1).after(k)).owner != player,
{
    let d = safe_drain(f, player, n);
    let g = debited(f, d + 1);
    lemma_tightest(f, a, player, n);
    let at = choose|k: nat| 1 <= k <= n && (#[trigger] f.after(k)).owner == player && f.after(k).ships == d;
    lemma_safe_drain(f, a, player, n, 0);
    if forall|k: nat| k <= n ==> (#[trigger] g.after(k)).owner == player {
        lemma_debited_course(f, a, player, d + 1, at);
        assert(g.valid(a));
        crate::forecast::lemma_after(g, a, at);
        assert(false);
    }
}

} // verus!
