//! How a planet fares over the next steps: who holds it, and with how many
//! ships.
//!
//! Ships are whole numbers, so the forecasts are exact.

use vstd::prelude::*;

verus! {

/// The greatest number of ships that a forecast counts: two to the power 53.
pub const SHIP_LIMIT: i64 = 9007199254740992;

/// The most that one of the first `n` players, other than `player`, has in
/// `row`; 0 where there is no other player.
pub open spec fn best_other(row: Seq<i64>, player: int, n: nat) -> int
    decreases n,
{
    if n == 0 {
        0
    } else {
        let best = best_other(row, player, (n - 1) as nat);
        if n - 1 != player && row[n - 1] > best {
            row[n - 1] as int
        } else {
            best
        }
    }
}

/// What `player` has left of `row` once its strongest rival is paid off.
pub open spec fn margin(row: Seq<i64>, player: int) -> int {
    row[player] - best_other(row, player, row.len())
}

/// The player that has ships left of `row`, with those ships; owner -1 and no
/// ships where the strongest sides are equal. `row[a]` are the ships of player
/// `a`.
pub open spec fn party(row: Seq<i64>) -> (int, int) {
    if exists|a: int| 0 <= a < row.len() && #[trigger] margin(row, a) > 0 {
        let a = choose|a: int| 0 <= a < row.len() && #[trigger] margin(row, a) > 0;
        (a, margin(row, a))
    } else {
        (-1int, 0int)
    }
}

/// Ships of all players in `row`.
pub open spec fn row_sum(row: Seq<i64>) -> int
    decreases row.len(),
{
    if row.len() == 0 {
        0
    } else {
        row_sum(row.drop_last()) + row.last()
    }
}

/// No player has less than nothing in `row`.
pub open spec fn counts(row: Seq<i64>) -> bool {
    forall|a: int| 0 <= a < row.len() ==> #[trigger] row[a] >= 0
}

pub proof fn lemma_best_other(row: Seq<i64>, player: int, n: nat)
    requires
        n <= row.len(),
    ensures
        best_other(row, player, n) >= 0,
        forall|b: int| 0 <= b < n && b != player ==> #[trigger] row[b] <= best_other(row, player, n),
        best_other(row, player, n) > 0 ==> exists|b: int|
            0 <= b < n && b != player && #[trigger] row[b] == best_other(row, player, n),
    decreases n,
{
    if n > 0 {
        lemma_best_other(row, player, (n - 1) as nat);
    }
}

/// At most one player has ships left.
pub proof fn lemma_one_party(row: Seq<i64>, a: int, b: int)
    requires
        0 <= a < row.len(),
        0 <= b < row.len(),
        margin(row, a) > 0,
        margin(row, b) > 0,
    ensures
        a == b,
{
    lemma_best_other(row, a, row.len());
    lemma_best_other(row, b, row.len());
}

pub proof fn lemma_row_sum(row: Seq<i64>, a: int)
    requires
        counts(row),
        0 <= a < row.len(),
    ensures
        0 <= row[a] <= row_sum(row),
    decreases row.len(),
{
    let front = row.drop_last();
    assert forall|b: int| 0 <= b < front.len() implies #[trigger] front[b] >= 0 by {
        assert(front[b] == row[b]);
    }
    assert(row[row.len() - 1] >= 0);
    if a < front.len() {
        lemma_row_sum(front, a);
    } else if front.len() > 0 {
        lemma_row_sum(front, 0);
    } else {
        assert(row_sum(front) == 0);
    }
}

/// What is left is some of what came.
pub proof fn lemma_party(row: Seq<i64>)
    requires
        counts(row),
    ensures
        0 <= party(row).1 <= row_sum(row),
        party(row).1 > 0 ==> 0 <= party(row).0 < row.len() && party(row).1 <= row[party(row).0],
        party(row).1 == 0 ==> party(row).0 == -1,
{
    if exists|a: int| 0 <= a < row.len() && #[trigger] margin(row, a) > 0 {
        let a = choose|a: int| 0 <= a < row.len() && #[trigger] margin(row, a) > 0;
        lemma_best_other(row, a, row.len());
        lemma_row_sum(row, a);
    } else if row.len() > 0 {
        lemma_row_sum(row, 0);
    }
}

/// The player that survives where the players' ships of `row` meet, and the
/// ships that it has left; -1 and 0 where nobody survives.
pub(crate) fn survivor(row: &Vec<i64>) -> (r: (i64, i64))
    requires
        counts(row@),
        row@.len() <= i64::MAX,
    ensures
        r.0 == party(row@).0,
        r.1 == party(row@).1,
{
    let mut top: i64 = 0;
    let mut owner: i64 = -1;
    let mut second: i64 = 0;
    let mut a: usize = 0;
    while a < row.len()
        invariant
            a <= row@.len(),
            row@.len() <= i64::MAX,
            counts(row@),
            0 <= second <= top,
            top == 0 ==> owner == -1,
            top > 0 ==> 0 <= owner < a && row@[owner as int] == top,
            forall|b: int| 0 <= b < a && b != owner ==> #[trigger] row@[b] <= second,
            second > 0 ==> exists|b: int| 0 <= b < a && b != owner && #[trigger] row@[b] == second,
        decreases row@.len() - a,
    {
        let s: i64 = row[a];
        let ghost (top0, owner0) = (top, owner);
        if s > top {
            second = top;
            top = s;
            owner = a as i64;
            assert(top0 > 0 ==> row@[owner0 as int] == second);
        } else if s > second {
            second = s;
        }
        a += 1;
    }
    proof {
        lemma_two_best(row@, top as int, owner as int, second as int);
    }
    if top == second {
        (-1, 0)
    } else {
        (owner, top - second)
    }
}

proof fn lemma_two_best(row: Seq<i64>, top: int, owner: int, second: int)
    requires
        counts(row),
        0 <= second <= top,
        top == 0 ==> owner == -1,
        top > 0 ==> 0 <= owner < row.len() && row[owner] == top,
        forall|b: int| 0 <= b < row.len() && b != owner ==> #[trigger] row[b] <= second,
        second > 0 ==> exists|b: int| 0 <= b < row.len() && b != owner && #[trigger] row[b] == second,
    ensures
        party(row) == (if top == second {
            (-1int, 0int)
        } else {
            (owner, top - second)
        }),
{
    if top > 0 {
        lemma_best_other(row, owner, row.len());
        assert(best_other(row, owner, row.len()) == second);
        if top > second {
            assert(margin(row, owner) > 0);
            let a = choose|a: int| 0 <= a < row.len() && #[trigger] margin(row, a) > 0;
            lemma_one_party(row, a, owner);
        }
    }
    if top == second {
        assert forall|a: int| 0 <= a < row.len() implies #[trigger] margin(row, a) <= 0 by {
            lemma_best_other(row, a, row.len());
            if top > 0 && a != owner {
                assert(row[owner] <= best_other(row, a, row.len()));
            }
        }
    }
}

/// Who holds a planet, with how many ships; an owner below 0 is nobody.
#[verifier::ext_equal]
pub struct Holding {
    pub owner: int,
    pub ships: int,
}

/// What decides how a planet fares: who holds it now, what it makes, at which
/// steps it is there, and what lands on it at each step.
#[verifier::ext_equal]
pub struct Forecast {
    pub init: Holding,
    pub prod: int,
    pub alive: Seq<bool>,
    pub arrivals: Seq<Seq<i64>>,
}

/// Nobody's empty planet.
pub open spec fn nothing() -> Holding {
    Holding { owner: -1, ships: 0 }
}

/// The holding after a landing party of `s` ships of `o` has met it.
pub open spec fn met(h: Holding, o: int, s: int) -> Holding {
    if s <= 0 {
        h
    } else if o == h.owner {
        Holding { owner: o, ships: h.ships + s }
    } else if h.ships < s {
        Holding { owner: o, ships: s - h.ships }
    } else {
        Holding { owner: h.owner, ships: h.ships - s }
    }
}

impl Forecast {
    /// The holding at the end of step `k`.
    pub open spec fn after(self, k: nat) -> Holding
        decreases k,
    {
        if k == 0 {
            self.init
        } else if !self.alive[k as int] {
            nothing()
        } else {
            let h = self.after((k - 1) as nat);
            let grown = if self.alive[k - 1] && h.owner >= 0 {
                Holding { owner: h.owner, ships: h.ships + self.prod }
            } else {
                h
            };
            met(grown, party(self.arrivals[k as int]).0, party(self.arrivals[k as int]).1)
        }
    }

    /// The holding at step `k` once it has produced, before anything lands.
    pub open spec fn before(self, k: nat) -> Holding {
        if k == 0 {
            self.init
        } else if !self.alive[k as int] {
            nothing()
        } else {
            let h = self.after((k - 1) as nat);
            if self.alive[k - 1] && h.owner >= 0 {
                Holding { owner: h.owner, ships: h.ships + self.prod }
            } else {
                h
            }
        }
    }

    /// The last step looked at.
    pub open spec fn horizon(self) -> int {
        self.alive.len() - 1
    }

    /// There is a step to look at, nothing is owed, and every step has its row
    /// of arrivals for `a` players.
    pub open spec fn valid(self, a: nat) -> bool {
        &&& self.alive.len() > 0
        &&& self.arrivals.len() == self.alive.len()
        &&& self.init.ships >= 0
        &&& self.prod >= 0
        &&& forall|k: int|
            0 <= k < self.arrivals.len() ==> (#[trigger] self.arrivals[k]).len() == a && counts(self.arrivals[k])
    }

    /// All ships that can ever meet on the planet.
    pub open spec fn reach(self) -> int {
        self.init.ships + self.prod * self.horizon() + landing_total(self.arrivals, self.arrivals.len())
    }
}

/// Ships that land in the first `n` rows.
pub open spec fn landing_total(arrivals: Seq<Seq<i64>>, n: nat) -> int
    decreases n,
{
    if n == 0 {
        0
    } else {
        landing_total(arrivals, (n - 1) as nat) + row_sum(arrivals[n - 1])
    }
}

/// The rows as sequences.
pub open spec fn rows(arrivals: Seq<Vec<i64>>) -> Seq<Seq<i64>> {
    Seq::new(arrivals.len(), |k: int| arrivals[k]@)
}

/// How a planet fares: at each step who holds it and with how many ships, at
/// the end of the step and before anything lands.
pub struct Trajectory {
    pub owner: Vec<i64>,
    pub ships: Vec<i64>,
    pub pre_owner: Vec<i64>,
    pub pre_ships: Vec<i64>,
}

impl Trajectory {
    /// The first `n` steps are those of `f`.
    pub open spec fn follows(self, f: Forecast, n: int) -> bool {
        &&& self.owner@.len() == n
        &&& self.ships@.len() == n
        &&& self.pre_owner@.len() == n
        &&& self.pre_ships@.len() == n
        &&& forall|k: int|
            0 <= k < n ==> (Holding { owner: #[trigger] self.owner@[k] as int, ships: self.ships@[k] as int })
                == f.after(k as nat)
        &&& forall|k: int|
            0 <= k < n ==> (Holding { owner: #[trigger] self.pre_owner@[k] as int, ships: self.pre_ships@[k] as int })
                == f.before(k as nat)
    }
}

pub proof fn lemma_landing_total(arrivals: Seq<Seq<i64>>, j: nat, n: nat)
    requires
        j <= n <= arrivals.len(),
        forall|k: int| 0 <= k < arrivals.len() ==> counts(#[trigger] arrivals[k]),
    ensures
        0 <= landing_total(arrivals, j) <= landing_total(arrivals, n),
    decreases n,
{
    if j < n {
        lemma_landing_total(arrivals, j, (n - 1) as nat);
        assert(counts(arrivals[n - 1]));
        lemma_party(arrivals[n - 1]);
    } else if j > 0 {
        lemma_landing_total(arrivals, (j - 1) as nat, (j - 1) as nat);
        assert(counts(arrivals[j - 1]));
        lemma_party(arrivals[j - 1]);
    }
}

/// A planet never holds less than nothing, nor more than has come together
/// there, and its owner is the first one or a player.
pub proof fn lemma_after(f: Forecast, a: nat, k: nat)
    requires
        f.valid(a),
        k <= f.horizon(),
    ensures
        0 <= f.after(k).ships <= f.init.ships + f.prod * k + landing_total(f.arrivals, (k + 1) as nat),
        f.after(k).owner == f.init.owner || -1 <= f.after(k).owner < a,
        0 <= f.before(k).ships <= f.init.ships + f.prod * k + landing_total(f.arrivals, k),
        f.before(k).owner == f.init.owner || -1 <= f.before(k).owner < a,
    decreases k,
{
    lemma_landing_total(f.arrivals, k, (k + 1) as nat);
    assert(counts(f.arrivals[k as int]));
    lemma_party(f.arrivals[k as int]);
    if k > 0 {
        lemma_after(f, a, (k - 1) as nat);
        assert(f.prod * k == f.prod * (k - 1) + f.prod) by (nonlinear_arith);
        assert(f.prod * k >= 0) by (nonlinear_arith)
            requires
                f.prod >= 0,
        ;
    }
}

/// Works out how a planet fares.
pub(crate) fn planet_trajectory(
    init_owner: i64,
    init_ships: i64,
    prod: i64,
    alive: &Vec<bool>,
    arrivals: &Vec<Vec<i64>>,
    Ghost(a): Ghost<nat>,
) -> (t: Trajectory)
    requires
        a <= i64::MAX,
        ({
            let f = Forecast {
                init: Holding { owner: init_owner as int, ships: init_ships as int },
                prod: prod as int,
                alive: alive@,
                arrivals: rows(arrivals@),
            };
            f.valid(a) && f.reach() <= SHIP_LIMIT
        }),
    ensures
        ({
            let f = Forecast {
                init: Holding { owner: init_owner as int, ships: init_ships as int },
                prod: prod as int,
                alive: alive@,
                arrivals: rows(arrivals@),
            };
            t.follows(f, alive@.len() as int)
        }),
{
    let ghost f = Forecast {
        init: Holding { owner: init_owner as int, ships: init_ships as int },
        prod: prod as int,
        alive: alive@,
        arrivals: rows(arrivals@),
    };
    let mut t = Trajectory { owner: Vec::new(), ships: Vec::new(), pre_owner: Vec::new(), pre_ships: Vec::new() };
    t.owner.push(init_owner);
    t.ships.push(init_ships);
    t.pre_owner.push(init_owner);
    t.pre_ships.push(init_ships);
    let mut owner: i64 = init_owner;
    let mut ships: i64 = init_ships;
    let mut k: usize = 1;
    while k < alive.len()
        invariant
            1 <= k <= alive@.len(),
            a <= i64::MAX,
            f.valid(a),
            f.reach() <= SHIP_LIMIT,
            f.alive == alive@,
            f.arrivals == rows(arrivals@),
            f.prod == prod,
            t.follows(f, k as int),
            (Holding { owner: owner as int, ships: ships as int }) == f.after((k - 1) as nat),
        decreases alive@.len() - k,
    {
        proof {
            lemma_after(f, a, (k - 1) as nat);
            lemma_after(f, a, k as nat);
            lemma_landing_total(f.arrivals, k as nat, f.arrivals.len());
            lemma_landing_total(f.arrivals, (k + 1) as nat, f.arrivals.len());
            assert(f.prod * k <= f.prod * f.horizon()) by (nonlinear_arith)
                requires
                    f.prod >= 0,
                    k <= f.horizon(),
            ;
            assert(f.arrivals[k as int] == arrivals@[k as int]@);
            assert(counts(f.arrivals[k as int]));
            lemma_party(f.arrivals[k as int]);
        }
        if !alive[k] {
            t.pre_owner.push(-1);
            t.pre_ships.push(0);
            owner = -1;
            ships = 0;
        } else {
            proof {
                assert(f.before(k as nat).ships <= SHIP_LIMIT);
                assert(f.after(k as nat).ships <= SHIP_LIMIT);
            }
            if alive[k - 1] && owner >= 0 {
                ships = ships + prod;
            }
            t.pre_owner.push(owner);
            t.pre_ships.push(ships);
            let (o, s) = survivor(&arrivals[k]);
            if s > 0 {
                if o == owner {
                    ships = ships + s;
                } else if ships < s {
                    ships = s - ships;
                    owner = o;
                } else {
                    ships = ships - s;
                }
            }
        }
        t.owner.push(owner);
        t.ships.push(ships);
        k += 1;
    }
    t
}

/// What becomes of a planet in a step. One that is gone is nobody's and empty. One
/// that somebody held, and that was there before, has produced; else nothing is added.
/// Where side `w` brings more than every other side and `s` is the most that another
/// one brings, what it brings beyond `s` joins its own ships, or is set against those
/// of the holder: the planet is its own only where that is more. Where nobody brings
/// more than all others, nothing changes.
pub proof fn lemma_fares(f: Forecast, k: nat, w: int, s: int)
    requires
        1 <= k <= f.horizon(),
        f.arrivals.len() == f.alive.len(),
    ensures
        f.after(0) == f.init && f.before(0) == f.init,
        !f.alive[k as int] ==> f.after(k).owner == -1 && f.after(k).ships == 0 && f.before(k) == f.after(k),
        ({
            let h = f.after((k - 1) as nat);
            &&& f.alive[k as int] ==> f.before(k).owner == h.owner
            &&& f.alive[k as int] && f.alive[k - 1] && h.owner >= 0 ==> f.before(k).ships == h.ships + f.prod
            &&& f.alive[k as int] && (!f.alive[k - 1] || h.owner < 0) ==> f.before(k).ships == h.ships
        }),
        ({
            let row = f.arrivals[k as int];
            let b = f.before(k);
            let e = f.after(k);
            &&& f.alive[k as int] && brings_most(row, w, s) ==> {
                &&& w == b.owner ==> e.owner == w && e.ships == b.ships + (row[w] - s)
                &&& w != b.owner && row[w] - s > b.ships ==> e.owner == w && e.ships == row[w] - s - b.ships
                &&& w != b.owner && row[w] - s <= b.ships ==> e.owner == b.owner && e.ships == b.ships - (row[w] - s)
            }
            &&& f.alive[k as int] && (forall|a: int, m: int| !#[trigger] brings_most(row, a, m)) ==> e == b
        }),
{
    let row = f.arrivals[k as int];
    if brings_most(row, w, s) {
        lemma_best_other(row, w, row.len());
        assert(margin(row, w) == row[w] - s);
        let a = choose|a: int| 0 <= a < row.len() && #[trigger] margin(row, a) > 0;
        lemma_one_party(row, a, w);
    }
    if forall|a: int, m: int| !#[trigger] brings_most(row, a, m) {
        assert forall|a: int| 0 <= a < row.len() implies #[trigger] margin(row, a) <= 0 by {
            lemma_best_other(row, a, row.len());
            let m = best_other(row, a, row.len());
            assert(!brings_most(row, a, m));
        }
    }
}

/// Side `w` brings more than any other in `row`, of which `s` is the most; 0 where the
/// others bring nothing.
pub open spec fn brings_most(row: Seq<i64>, w: int, s: int) -> bool {
    &&& 0 <= w < row.len()
    &&& row[w] > s >= 0
    &&& forall|b: int| 0 <= b < row.len() && b != w ==> #[trigger] row[b] <= s
    &&& s > 0 ==> exists|b: int| 0 <= b < row.len() && b != w && #[trigger] row[b] == s
}

/// A planet never holds more than has come together there.
pub proof fn lemma_within(f: Forecast, a: nat, k: nat)
    requires
        f.valid(a),
        k <= f.horizon(),
    ensures
        0 <= f.after(k).ships <= f.reach(),
        0 <= f.before(k).ships <= f.reach(),
{
    lemma_after(f, a, k);
    lemma_landing_total(f.arrivals, k, f.arrivals.len());
    lemma_landing_total(f.arrivals, (k + 1) as nat, f.arrivals.len());
    assert(f.prod * k <= f.prod * f.horizon()) by (nonlinear_arith)
        requires
            f.prod >= 0,
            k <= f.horizon(),
    ;
}

/// Each player's ships in `list`.
pub open spec fn tallied(list: Seq<crate::combat::Arrival>, row: Seq<i64>) -> bool {
    &&& forall|a: int| 0 <= a < row.len() ==> #[trigger] row[a] == crate::combat::brought_by(list, a as i64)
    &&& forall|i: int| 0 <= i < list.len() ==> 0 <= (#[trigger] list[i]).owner < row.len()
}

/// The projection and the game let the same side survive.
pub proof fn lemma_same_survivor(list: Seq<crate::combat::Arrival>, row: Seq<i64>)
    requires
        crate::combat::no_debts(list),
        tallied(list, row),
        row.len() <= i64::MAX,
    ensures
        crate::combat::survivor(list) == (if party(row).1 > 0 {
            Some((party(row).0 as i64, party(row).1))
        } else {
            None
        }),
{
    assert forall|a: int| 0 <= a < row.len() implies #[trigger] row[a] >= 0 by {
        crate::combat::lemma_brought_by(list, a as i64);
    }
    lemma_party(row);
    assert forall|i: int| 0 <= i < list.len() implies crate::combat::lead(list, (#[trigger] list[i]).owner) == margin(
        row,
        list[i].owner as int,
    ) by {
        lemma_same_rival(list, row, list[i].owner);
    }
    if exists|a: int| 0 <= a < row.len() && #[trigger] margin(row, a) > 0 {
        let a = choose|a: int| 0 <= a < row.len() && #[trigger] margin(row, a) > 0;
        lemma_best_other(row, a, row.len());
        assert(row[a] > 0);
        lemma_brings(list, a as i64);
        let i = choose|i: int| 0 <= i < list.len() && (#[trigger] list[i]).owner == a;
        assert(crate::combat::lead(list, list[i].owner) > 0);
        let j = choose|j: int| 0 <= j < list.len() && crate::combat::lead(list, (#[trigger] list[j]).owner) > 0;
        crate::combat::lemma_one_survivor(list, i, j);
    } else {
        assert forall|i: int| 0 <= i < list.len() implies crate::combat::lead(list, (#[trigger] list[i]).owner) <= 0 by {
            assert(margin(row, list[i].owner as int) <= 0);
        }
    }
}

proof fn lemma_brings(list: Seq<crate::combat::Arrival>, owner: i64)
    requires
        crate::combat::brought_by(list, owner) > 0,
    ensures
        exists|i: int| 0 <= i < list.len() && (#[trigger] list[i]).owner == owner,
    decreases list.len(),
{
    if list.len() > 0 {
        if list.last().owner == owner {
            assert(list[list.len() - 1].owner == owner);
        } else {
            lemma_brings(list.drop_last(), owner);
            let i = choose|i: int|
                0 <= i < list.drop_last().len() && (#[trigger] list.drop_last()[i]).owner == owner;
            assert(list[i].owner == owner);
        }
    }
}

proof fn lemma_same_rival(list: Seq<crate::combat::Arrival>, row: Seq<i64>, owner: i64)
    requires
        crate::combat::no_debts(list),
        counts(row),
        tallied(list, row),
        row.len() <= i64::MAX,
    ensures
        crate::combat::strongest_rival(list, list, owner) == best_other(row, owner as int, row.len()),
{
    crate::combat::lemma_strongest_rival(list, list, owner);
    lemma_best_other(row, owner as int, row.len());
    let x = crate::combat::strongest_rival(list, list, owner);
    let y = best_other(row, owner as int, row.len());
    if x > 0 {
        let i = choose|i: int|
            0 <= i < list.len() && (#[trigger] list[i]).owner != owner && crate::combat::brought_by(
                list,
                list[i].owner,
            ) == x;
        assert(row[list[i].owner as int] == x);
    }
    if y > 0 {
        let b = choose|b: int| 0 <= b < row.len() && b != owner && #[trigger] row[b] == y;
        lemma_brings(list, b as i64);
        let i = choose|i: int| 0 <= i < list.len() && (#[trigger] list[i]).owner == b;
        assert(crate::combat::brought_by(list, list[i].owner) <= x);
    }
}

/// The projection and the game end a battle the same way.
pub proof fn lemma_same_battle(p: crate::state::Planet, list: Seq<crate::combat::Arrival>, row: Seq<i64>)
    requires
        p.ships >= 0,
        crate::combat::no_debts(list),
        tallied(list, row),
        row.len() <= i64::MAX,
        p.ships + crate::combat::brought(list) <= i64::MAX,
    ensures
        ({
            let after = crate::tick::after_battle(p, list);
            met(Holding { owner: p.owner as int, ships: p.ships as int }, party(row).0, party(row).1) == (Holding {
                owner: after.owner as int,
                ships: after.ships as int,
            })
        }),
{
    lemma_same_survivor(list, row);
    crate::combat::lemma_survivor_bound(list);
    assert forall|a: int| 0 <= a < row.len() implies #[trigger] row[a] >= 0 by {
        crate::combat::lemma_brought_by(list, a as i64);
    }
    lemma_party(row);
}

/// What the projection says of a step is what the game does to a planet in a
/// tick: it produces, and then what lands fights for it.
pub proof fn lemma_same_step(f: Forecast, k: nat, p: crate::state::Planet, list: Seq<crate::combat::Arrival>)
    requires
        1 <= k <= f.horizon(),
        f.alive[k as int],
        f.alive[k - 1],
        f.prod == p.production,
        f.after((k - 1) as nat) == (Holding { owner: p.owner as int, ships: p.ships as int }),
        p.owner >= -1,
        p.ships >= 0,
        p.production >= 0,
        crate::combat::no_debts(list),
        tallied(list, f.arrivals[k as int]),
        f.arrivals[k as int].len() <= i64::MAX,
        p.ships + p.production + crate::combat::brought(list) <= i64::MAX,
    ensures
        ({
            let after = crate::tick::after_battle(crate::engine::grown(p), list);
            f.after(k) == (Holding { owner: after.owner as int, ships: after.ships as int })
        }),
{
    crate::combat::lemma_brought_by(list, 0);
    lemma_same_battle(crate::engine::grown(p), list, f.arrivals[k as int]);
}

} // verus!
