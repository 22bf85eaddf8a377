//! The projection of all garrisons, from the planets and the fleets in flight.

use crate::flow::{GarrisonStatus, Projection};
use crate::state::{Fleet, GameState};
use crate::tick::FleetMove;
use vstd::prelude::*;

verus! {

use crate::forecast::{Forecast, Holding};
use crate::state::GameModel;

/// The first of the first `n` planets that is within reach.
pub open spec fn first_reached(contacts: Seq<bool>, n: nat) -> Option<int>
    decreases n,
{
    if n == 0 {
        None
    } else {
        match first_reached(contacts, (n - 1) as nat) {
            Some(j) => Some(j),
            None => if contacts[n - 1] {
                Some(n - 1)
            } else {
                None
            },
        }
    }
}

/// What has become of a fleet.
pub enum Voyage {
    Arrives { planet: int, step: int },
    Lost,
    Underway,
}

/// What becomes of a fleet over its first `n` legs: it reaches a planet, leaves
/// the board or flies through the sun, or is still under way.
pub open spec fn voyage(legs: Seq<FleetMove>, n: nat) -> Voyage
    decreases n,
{
    if n == 0 {
        Voyage::Underway
    } else {
        match voyage(legs, (n - 1) as nat) {
            Voyage::Underway => {
                let leg = legs[n - 1];
                match first_reached(leg.contacts@, leg.contacts@.len()) {
                    Some(j) => Voyage::Arrives { planet: j, step: n as int },
                    None => if !leg.to.within_board() || leg.sun {
                        Voyage::Lost
                    } else {
                        Voyage::Underway
                    },
                }
            },
            v => v,
        }
    }
}

proof fn lemma_first_reached(contacts: Seq<bool>, n: nat)
    ensures
        match first_reached(contacts, n) {
            Some(j) => 0 <= j < n && contacts[j] && forall|i: int| 0 <= i < j ==> !#[trigger] contacts[i],
            None => forall|i: int| 0 <= i < n ==> !#[trigger] contacts[i],
        },
    decreases n,
{
    if n > 0 {
        lemma_first_reached(contacts, (n - 1) as nat);
    }
}

fn find_reached(contacts: &Vec<bool>) -> (r: Option<usize>)
    ensures
        match r {
            Some(j) => j < contacts@.len() && first_reached(contacts@, contacts@.len()) == Some(j as int),
            None => first_reached(contacts@, contacts@.len()) is None,
        },
{
    proof {
        lemma_first_reached(contacts@, contacts@.len());
    }
    let mut j: usize = 0;
    while j < contacts.len()
        invariant
            j <= contacts@.len(),
            forall|i: int| 0 <= i < j ==> !#[trigger] contacts@[i],
        decreases contacts@.len() - j,
    {
        if contacts[j] {
            proof {
                lemma_first_reached(contacts@, contacts@.len());
            }
            return Some(j);
        }
        j += 1;
    }
    None
}

/// A voyage ends with one of its legs.
pub proof fn lemma_voyage_step(legs: Seq<FleetMove>, n: nat)
    ensures
        voyage(legs, n) matches Voyage::Arrives { planet, step } ==> 1 <= step <= n && planet >= 0,
    decreases n,
{
    if n > 0 {
        lemma_voyage_step(legs, (n - 1) as nat);
        lemma_first_reached(legs[n - 1].contacts@, legs[n - 1].contacts@.len());
    }
}

/// A voyage that has ended stays as it is.
proof fn lemma_voyage_ended(legs: Seq<FleetMove>, n: nat, m: nat)
    requires
        n <= m,
        !(voyage(legs, n) is Underway),
    ensures
        voyage(legs, m) == voyage(legs, n),
    decreases m,
{
    if n < m {
        lemma_voyage_ended(legs, n, (m - 1) as nat);
    }
}

/// What becomes of a fleet under way in a leg is what becomes of it in a tick of
/// the game in which no planet is out of reach.
pub proof fn lemma_leg(legs: Seq<FleetMove>, n: nat, paths: Seq<crate::motion::PlanetPath>)
    requires
        n < legs.len(),
        voyage(legs, n) is Underway,
        legs[n as int].contacts@.len() == paths.len(),
        forall|j: int| 0 <= j < paths.len() ==> (#[trigger] paths[j]).check,
    ensures
        voyage(legs, n + 1) == (match crate::tick::fate(paths, legs[n as int]) {
            crate::tick::Fate::Lands { planet } => Voyage::Arrives { planet, step: n as int + 1 },
            crate::tick::Fate::Lost => Voyage::Lost,
            crate::tick::Fate::Flies => Voyage::Underway,
        }),
{
    lemma_same_contact(legs[n as int].contacts@, paths, paths.len());
}

proof fn lemma_same_contact(contacts: Seq<bool>, paths: Seq<crate::motion::PlanetPath>, n: nat)
    requires
        n <= paths.len(),
        forall|j: int| 0 <= j < paths.len() ==> (#[trigger] paths[j]).check,
    ensures
        crate::tick::first_contact(paths, contacts, n) == first_reached(contacts, n),
    decreases n,
{
    if n > 0 {
        lemma_same_contact(contacts, paths, (n - 1) as nat);
        assert(paths[n - 1].check);
    }
}

/// The leg ends in flight: it meets no planet, and neither leaves the board nor goes
/// through the sun.
pub open spec fn flies_on(leg: FleetMove) -> bool {
    &&& forall|j: int| 0 <= j < leg.contacts@.len() ==> !#[trigger] leg.contacts@[j]
    &&& leg.to.within_board()
    &&& !leg.sun
}

/// The fleet flies on over the legs before leg `k`, counted from 1, and in that one
/// meets planet `j` and none that is listed before it.
pub open spec fn arrives_at(legs: Seq<FleetMove>, j: int, k: int) -> bool {
    &&& 1 <= k <= legs.len()
    &&& 0 <= j < legs[k - 1].contacts@.len()
    &&& legs[k - 1].contacts@[j]
    &&& forall|i: int| 0 <= i < j ==> !#[trigger] legs[k - 1].contacts@[i]
    &&& forall|m: int| 0 <= m < k - 1 ==> flies_on(#[trigger] legs[m])
}

proof fn lemma_underway(legs: Seq<FleetMove>, n: nat)
    requires
        n <= legs.len(),
    ensures
        voyage(legs, n) is Underway <==> (forall|m: int| 0 <= m < n ==> flies_on(#[trigger] legs[m])),
    decreases n,
{
    if n > 0 {
        lemma_underway(legs, (n - 1) as nat);
        let leg = legs[n - 1];
        lemma_first_reached(leg.contacts@, leg.contacts@.len());
        if voyage(legs, n) is Underway {
            if !(voyage(legs, (n - 1) as nat) is Underway) {
                lemma_voyage_ended(legs, (n - 1) as nat, n);
            }
            assert(flies_on(leg));
        }
        if forall|m: int| 0 <= m < n ==> flies_on(#[trigger] legs[m]) {
            assert(voyage(legs, (n - 1) as nat) is Underway);
            assert(flies_on(legs[n - 1]));
        }
    }
}

proof fn lemma_arrives(legs: Seq<FleetMove>, n: nat, j: int, k: int)
    requires
        n <= legs.len(),
    ensures
        (voyage(legs, n) == Voyage::Arrives { planet: j, step: k }) == (k <= n && arrives_at(legs, j, k)),
    decreases n,
{
    lemma_voyage_step(legs, n);
    if n > 0 {
        lemma_arrives(legs, (n - 1) as nat, j, k);
        lemma_underway(legs, (n - 1) as nat);
        let leg = legs[n - 1];
        lemma_first_reached(leg.contacts@, leg.contacts@.len());
        lemma_voyage_step(legs, (n - 1) as nat);
        if k == n && arrives_at(legs, j, k) {
            assert(voyage(legs, (n - 1) as nat) is Underway);
            assert(leg.contacts@[j]);
            let i = first_reached(leg.contacts@, leg.contacts@.len())->0;
            if i < j {
                assert(!legs[k - 1].contacts@[i]);
            } else if j < i {
                assert(!leg.contacts@[j]);
            }
        }
        if k < n && arrives_at(legs, j, k) {
            lemma_voyage_ended(legs, (n - 1) as nat, n);
        }
        if voyage(legs, n) == (Voyage::Arrives { planet: j, step: k }) && k == n {
            assert(voyage(legs, (n - 1) as nat) is Underway) by {
                if !(voyage(legs, (n - 1) as nat) is Underway) {
                    lemma_voyage_ended(legs, (n - 1) as nat, n);
                }
            }
        }
        if voyage(legs, n) == (Voyage::Arrives { planet: j, step: k }) && k < n {
            assert(!(voyage(legs, (n - 1) as nat) is Underway));
            lemma_voyage_ended(legs, (n - 1) as nat, n);
        }
    }
}

/// A voyage ends at a planet just where the fleet flies on up to the leg in which it
/// meets that planet first; it goes on just where the fleet flies on over all legs.
pub proof fn lemma_voyage(legs: Seq<FleetMove>, n: nat)
    requires
        n <= legs.len(),
    ensures
        voyage(legs, n) is Underway <==> (forall|m: int| 0 <= m < n ==> flies_on(#[trigger] legs[m])),
        voyage(legs, n) matches Voyage::Arrives { planet, step } ==> step <= n && arrives_at(legs, planet, step),
        forall|j: int, k: int|
            k <= n && #[trigger] arrives_at(legs, j, k) ==> voyage(legs, n) == (Voyage::Arrives { planet: j, step: k }),
{
    lemma_underway(legs, n);
    if let Voyage::Arrives { planet, step } = voyage(legs, n) {
        lemma_arrives(legs, n, planet, step);
    }
    assert forall|j: int, k: int| k <= n && #[trigger] arrives_at(legs, j, k) implies voyage(legs, n) == (
    Voyage::Arrives { planet: j, step: k }) by {
        lemma_arrives(legs, n, j, k);
    }
}

/// The planet that the fleet reaches over the given legs, and the step at which
/// it does; `None` where it is lost before, or does not get there in time.
pub fn fleet_eta(legs: &Vec<FleetMove>) -> (r: Option<(usize, usize)>)
    ensures
        match r {
            Some((j, k)) => voyage(legs@, legs@.len()) == (Voyage::Arrives { planet: j as int, step: k as int })
                && 1 <= k <= legs@.len() && j < legs@[k - 1].contacts@.len(),
            None => !(voyage(legs@, legs@.len()) is Arrives),
        },
        match r {
            Some((j, k)) => arrives_at(legs@, j as int, k as int),
            None => forall|j: int, k: int| !#[trigger] arrives_at(legs@, j, k),
        },
{
    let mut n: usize = 0;
    while n < legs.len()
        invariant
            n <= legs@.len(),
            voyage(legs@, n as nat) is Underway,
        decreases legs@.len() - n,
    {
        let leg = &legs[n];
        n += 1;
        match find_reached(&leg.contacts) {
            Some(j) => {
                proof {
                    lemma_voyage_ended(legs@, n as nat, legs@.len());
                    lemma_arrives(legs@, legs@.len(), j as int, n as int);
                }
                return Some((j, n));
            },
            None => {
                if !leg.to.on_board() || leg.sun {
                    proof {
                        lemma_voyage_ended(legs@, n as nat, legs@.len());
                        lemma_voyage(legs@, legs@.len());
                    }
                    return None;
                }
            },
        }
    }
    proof {
        lemma_voyage(legs@, legs@.len());
    }
    None
}

/// Ships of `player` that reach planet `i` at step `k`.
pub open spec fn coming(fleets: Seq<Fleet>, voyages: Seq<Vec<FleetMove>>, i: int, k: int, player: int) -> int
    decreases fleets.len(),
{
    if fleets.len() == 0 {
        0
    } else {
        let v = voyages[fleets.len() - 1]@;
        coming(fleets.drop_last(), voyages, i, k, player) + (if fleets.last().owner == player && voyage(v, v.len())
            == (Voyage::Arrives { planet: i, step: k }) {
            fleets.last().ships as int
        } else {
            0
        })
    }
}

/// A fleet adds its ships to what comes just where its owner, the planet that it
/// reaches and the step at which it does are those that are asked for; without fleets
/// nothing comes.
pub proof fn lemma_one_more_coming(
    fleets: Seq<Fleet>,
    voyages: Seq<Vec<FleetMove>>,
    fleet: Fleet,
    legs: Vec<FleetMove>,
    i: int,
    k: int,
    player: int,
)
    requires
        voyages.len() == fleets.len(),
    ensures
        coming(Seq::empty(), voyages, i, k, player) == 0,
        fleet.owner == player && arrives_at(legs@, i, k) ==> coming(
            fleets.push(fleet),
            voyages.push(legs),
            i,
            k,
            player,
        ) == coming(fleets, voyages, i, k, player) + fleet.ships,
        !(fleet.owner == player && arrives_at(legs@, i, k)) ==> coming(
            fleets.push(fleet),
            voyages.push(legs),
            i,
            k,
            player,
        ) == coming(fleets, voyages, i, k, player),
{
    let all = fleets.push(fleet);
    assert(all.drop_last() =~= fleets);
    assert(voyages.push(legs)[fleets.len() as int] == legs);
    lemma_voyage(legs@, legs@.len());
    assert(arrives_at(legs@, i, k) ==> k <= legs@.len());
    lemma_coming_same(fleets, voyages, voyages.push(legs), i, k, player);
}

proof fn lemma_coming_same(
    fleets: Seq<Fleet>,
    v: Seq<Vec<FleetMove>>,
    w: Seq<Vec<FleetMove>>,
    i: int,
    k: int,
    player: int,
)
    requires
        fleets.len() <= v.len(),
        fleets.len() <= w.len(),
        forall|f: int| 0 <= f < fleets.len() ==> #[trigger] v[f] == w[f],
    ensures
        coming(fleets, v, i, k, player) == coming(fleets, w, i, k, player),
    decreases fleets.len(),
{
    if fleets.len() > 0 {
        lemma_coming_same(fleets.drop_last(), v, w, i, k, player);
        assert(v[fleets.len() - 1] == w[fleets.len() - 1]);
    }
}

/// Ships of each of `a` players that reach planet `i` at step `k`.
pub open spec fn coming_row(fleets: Seq<Fleet>, voyages: Seq<Vec<FleetMove>>, i: int, k: int, a: nat) -> Seq<i64> {
    Seq::new(a, |p: int| coming(fleets, voyages, i, k, p) as i64)
}

/// What reaches planet `i` at each step up to `h`.
pub open spec fn coming_rows(
    fleets: Seq<Fleet>,
    voyages: Seq<Vec<FleetMove>>,
    i: int,
    h: nat,
    a: nat,
) -> Seq<Seq<i64>> {
    Seq::new((h + 1) as nat, |k: int| coming_row(fleets, voyages, i, k, a))
}

/// What decides how planet `i` of `g` fares over `h` steps.
pub open spec fn forecast_of(g: GameModel, voyages: Seq<Vec<FleetMove>>, i: int, h: nat, a: nat) -> Forecast {
    Forecast {
        init: Holding { owner: g.planets[i].owner as int, ships: g.planets[i].ships as int },
        prod: g.planets[i].production as int,
        alive: Seq::new((h + 1) as nat, |k: int| true),
        arrivals: coming_rows(g.fleets, voyages, i, h, a),
    }
}

/// What is on its way is some of what is in flight.
pub proof fn lemma_coming(fleets: Seq<Fleet>, voyages: Seq<Vec<FleetMove>>, i: int, h: nat, a: nat)
    requires
        forall|f: int| 0 <= f < fleets.len() ==> (#[trigger] fleets[f]).ships >= 0,
        crate::state::fleet_ships(fleets) <= i64::MAX,
    ensures
        ({
            let all = coming_rows(fleets, voyages, i, h, a);
            &&& 0 <= crate::forecast::landing_total(all, all.len()) <= crate::state::fleet_ships(fleets)
            &&& forall|k: int| 0 <= k < all.len() ==> crate::forecast::counts(#[trigger] all[k])
            &&& forall|k: int, p: int|
                0 <= k <= h && 0 <= p < a ==> 0 <= #[trigger] coming(fleets, voyages, i, k, p)
                    <= crate::state::fleet_ships(fleets)
        }),
    decreases fleets.len(),
{
    let all = coming_rows(fleets, voyages, i, h, a);
    if fleets.len() == 0 {
        lemma_no_landing(all, all.len());
    } else {
        let front = fleets.drop_last();
        let last = fleets.last();
        assert forall|f: int| 0 <= f < front.len() implies (#[trigger] front[f]).ships >= 0 by {
            assert(front[f] == fleets[f]);
        }
        assert(fleets[fleets.len() - 1].ships >= 0);
        lemma_coming(front, voyages, i, h, a);
        let before = coming_rows(front, voyages, i, h, a);
        let v = voyages[fleets.len() - 1]@;
        let o = last.owner as int;
        assert forall|k: int, p: int| 0 <= k <= h && 0 <= p < a implies 0 <= #[trigger] coming(
            fleets,
            voyages,
            i,
            k,
            p,
        ) <= crate::state::fleet_ships(fleets) by {
            assert(0 <= coming(front, voyages, i, k, p));
        }
        match voyage(v, v.len()) {
            Voyage::Arrives { planet, step } => if planet == i && 0 <= step <= h && 0 <= o < a {
                let row = before[step];
                assert(crate::forecast::counts(row));
                assert(0 <= coming(front, voyages, i, step, o) <= crate::state::fleet_ships(front));
                assert(row[o] == coming(front, voyages, i, step, o));
                let next = row.update(o, (row[o] + last.ships) as i64);
                crate::flow::lemma_row_update(row, o, (row[o] + last.ships) as i64);
                assert(all =~= before.update(step, next)) by {
                    assert forall|k: int| 0 <= k < all.len() implies #[trigger] all[k] =~= before.update(step, next)[k] by {
                        assert(all[k] =~= before.update(step, next)[k]);
                    }
                }
                crate::flow::lemma_total_credit(before, step, next, before.len());
            } else {
                lemma_rows_same(all, before, fleets, voyages, i, h, a);
            },
            _ => {
                lemma_rows_same(all, before, fleets, voyages, i, h, a);
            },
        }
        assert forall|k: int| 0 <= k < all.len() implies crate::forecast::counts(#[trigger] all[k]) by {
            assert forall|p: int| 0 <= p < a implies #[trigger] all[k][p] >= 0 by {
                assert(0 <= coming(fleets, voyages, i, k, p));
            }
        }
    }
}

proof fn lemma_rows_same(
    all: Seq<Seq<i64>>,
    before: Seq<Seq<i64>>,
    fleets: Seq<Fleet>,
    voyages: Seq<Vec<FleetMove>>,
    i: int,
    h: nat,
    a: nat,
)
    requires
        fleets.len() > 0,
        all == coming_rows(fleets, voyages, i, h, a),
        before == coming_rows(fleets.drop_last(), voyages, i, h, a),
        forall|k: int|
            0 <= k <= h ==> voyage(voyages[fleets.len() - 1]@, voyages[fleets.len() - 1]@.len()) != (
            #[trigger] arriving(i, k)) || !(0 <= fleets.last().owner < a),
    ensures
        all == before,
{
    assert forall|k: int| 0 <= k < all.len() implies #[trigger] all[k] == before[k] by {
        assert(voyage(voyages[fleets.len() - 1]@, voyages[fleets.len() - 1]@.len()) != arriving(i, k) || !(0
            <= fleets.last().owner < a));
        assert(all[k] =~= before[k]);
    }
    assert(all =~= before);
}

spec fn arriving(i: int, k: int) -> Voyage {
    Voyage::Arrives { planet: i, step: k }
}

proof fn lemma_no_landing(all: Seq<Seq<i64>>, n: nat)
    requires
        n <= all.len(),
        forall|k: int, p: int| 0 <= k < all.len() && 0 <= p < all[k].len() ==> #[trigger] all[k][p] == 0,
    ensures
        crate::forecast::landing_total(all, n) == 0,
    decreases n,
{
    if n > 0 {
        lemma_no_landing(all, (n - 1) as nat);
        lemma_zero_row(all[n - 1]);
    }
}

proof fn lemma_zero_row(row: Seq<i64>)
    requires
        forall|p: int| 0 <= p < row.len() ==> #[trigger] row[p] == 0,
    ensures
        crate::forecast::row_sum(row) == 0,
    decreases row.len(),
{
    if row.len() > 0 {
        lemma_zero_row(row.drop_last());
    }
}

/// The ends of the voyages.
spec fn etas_match(etas: Seq<Option<(usize, usize)>>, voyages: Seq<Vec<FleetMove>>) -> bool {
    &&& etas.len() == voyages.len()
    &&& forall|f: int|
        0 <= f < etas.len() ==> match #[trigger] etas[f] {
            Some((j, k)) => voyage(voyages[f]@, voyages[f]@.len()) == arriving(j as int, k as int),
            None => !(voyage(voyages[f]@, voyages[f]@.len()) is Arrives),
        }
}

/// What reaches planet `i` at each step up to `h`.
fn planet_arrivals(
    fleets: &Vec<Fleet>,
    etas: &Vec<Option<(usize, usize)>>,
    i: usize,
    h: usize,
    a: usize,
    Ghost(voyages): Ghost<Seq<Vec<FleetMove>>>,
) -> (r: Vec<Vec<i64>>)
    requires
        h < usize::MAX,
        etas@.len() == fleets@.len(),
        etas_match(etas@, voyages),
        forall|f: int| 0 <= f < fleets@.len() ==> (#[trigger] fleets@[f]).ships >= 0,
        crate::state::fleet_ships(fleets@) <= i64::MAX,
    ensures
        crate::forecast::rows(r@) == coming_rows(fleets@, voyages, i as int, h as nat, a as nat),
{
    let mut r: Vec<Vec<i64>> = Vec::new();
    let ghost none = fleets@.take(0);
    while r.len() < h + 1
        invariant
            h < usize::MAX,
            none.len() == 0,
            r@.len() <= h + 1,
            forall|k: int|
                0 <= k < r@.len() ==> (#[trigger] r@[k])@ =~= coming_row(none, voyages, i as int, k, a as nat),
        decreases h + 1 - r@.len(),
    {
        let mut row: Vec<i64> = Vec::new();
        while row.len() < a
            invariant
                row@.len() <= a,
                forall|p: int| 0 <= p < row@.len() ==> #[trigger] row@[p] == 0,
            decreases a - row@.len(),
        {
            row.push(0);
        }
        assert(row@ =~= coming_row(none, voyages, i as int, r@.len() as int, a as nat));
        r.push(row);
    }
    let mut f: usize = 0;
    while f < fleets.len()
        invariant
            f <= fleets@.len(),
            h < usize::MAX,
            etas@.len() == fleets@.len(),
            etas_match(etas@, voyages),
            forall|m: int| 0 <= m < fleets@.len() ==> (#[trigger] fleets@[m]).ships >= 0,
            crate::state::fleet_ships(fleets@) <= i64::MAX,
            r@.len() == h + 1,
            forall|k: int|
                0 <= k < r@.len() ==> (#[trigger] r@[k])@ == coming_row(
                    fleets@.take(f as int),
                    voyages,
                    i as int,
                    k,
                    a as nat,
                ),
        decreases fleets@.len() - f,
    {
        let fleet = fleets[f];
        let ghost now = fleets@.take(f as int);
        let ghost next = fleets@.take(f + 1);
        let ghost before = r@;
        proof {
            assert(next.drop_last() =~= now);
            assert(next.last() == fleet);
            lemma_fleets_part(fleets@, f + 1);
            lemma_coming(now, voyages, i as int, h as nat, a as nat);
            lemma_coming(next, voyages, i as int, h as nat, a as nat);
        }
        if fleet.owner >= 0 && (fleet.owner as u64) < a as u64 {
            if let Some((j, k)) = etas[f] {
                if j == i && k <= h {
                    let o: usize = fleet.owner as usize;
                    proof {
                        assert(etas@[f as int] == Some((j, k)));
                        assert(0 <= coming(next, voyages, i as int, k as int, o as int));
                        assert(before[k as int]@[o as int] == coming(now, voyages, i as int, k as int, o as int));
                    }
                    let more: i64 = r[k][o] + fleet.ships;
                    r[k][o] = more;
                }
            }
        }
        assert forall|k: int| 0 <= k < r@.len() implies (#[trigger] r@[k])@ == coming_row(
            next,
            voyages,
            i as int,
            k,
            a as nat,
        ) by {
            assert(before[k]@ == coming_row(now, voyages, i as int, k, a as nat));
            assert(etas@[f as int] == etas[f as int]);
            assert(r@[k]@ =~= coming_row(next, voyages, i as int, k, a as nat));
        }
        f += 1;
    }
    assert(fleets@.take(f as int) =~= fleets@);
    assert(crate::forecast::rows(r@) =~= coming_rows(fleets@, voyages, i as int, h as nat, a as nat));
    r
}

proof fn lemma_fleets_part(fleets: Seq<Fleet>, n: int)
    requires
        forall|m: int| 0 <= m < fleets.len() ==> (#[trigger] fleets[m]).ships >= 0,
        0 <= n <= fleets.len(),
    ensures
        forall|m: int| 0 <= m < n ==> (#[trigger] fleets.take(n)[m]).ships >= 0,
        crate::state::fleet_ships(fleets.take(n)) <= crate::state::fleet_ships(fleets),
        n > 0 ==> crate::state::fleet_ships(fleets.take(n - 1)) <= crate::state::fleet_ships(fleets),
        n > 0 ==> forall|m: int| 0 <= m < n - 1 ==> (#[trigger] fleets.take(n - 1)[m]).ships >= 0,
    decreases fleets.len() - n,
{
    if n < fleets.len() {
        lemma_fleets_part(fleets, n + 1);
    } else {
        assert(fleets.take(n) =~= fleets);
    }
    if n > 0 {
        assert(fleets.take(n).drop_last() =~= fleets.take(n - 1));
        assert(fleets.take(n).last() == fleets[n - 1]);
    }
}

/// Room for the projection of planet `i` over `h` steps.
pub open spec fn countable(g: GameModel, i: int, h: nat) -> bool {
    g.planets[i].ships + g.planets[i].production * h + crate::state::fleet_ships(g.fleets)
        <= crate::forecast::SHIP_LIMIT
}

/// Projects all garrisons of `g` over `horizon` steps for `player_count`
/// players. `voyages[f]` are the legs that fleet `f` flies over that time.
pub fn build_garrison_status(
    g: &GameState,
    voyages: &Vec<Vec<FleetMove>>,
    player_count: usize,
    horizon: usize,
) -> (status: GarrisonStatus)
    requires
        g@.solvent(),
        voyages@.len() == g@.fleets.len(),
        horizon < usize::MAX,
        horizon <= i64::MAX,
        player_count <= i64::MAX,
        crate::state::fleet_ships(g@.fleets) <= i64::MAX,
        forall|i: int| 0 <= i < g@.planets.len() ==> #[trigger] countable(g@, i, horizon as nat),
    ensures
        status.valid(),
        status.p == g@.planets.len(),
        status.h == horizon,
        status.a == player_count,
        forall|i: int|
            0 <= i < g@.planets.len() ==> (#[trigger] status.planets@[i]).forecast() == forecast_of(
                g@,
                voyages@,
                i,
                horizon as nat,
                player_count as nat,
            ),
        forall|i: int|
            0 <= i < g@.planets.len() ==> (#[trigger] status.planets@[i]).course.owner@[0] == g@.planets[i].owner
                && status.planets@[i].course.ships@[0] == g@.planets[i].ships && status.planets@[i].prod
                == g@.planets[i].production,
        forall|i: int, k: int|
            0 <= i < g@.planets.len() && 0 <= k <= horizon ==> #[trigger] status.planets@[i].alive@[k],
        forall|i: int, k: int, p: int|
            0 <= i < g@.planets.len() && 0 <= k <= horizon && 0 <= p < player_count ==> #[trigger] status.planets@[i].arrivals@[k]@[p]
                == coming(g@.fleets, voyages@, i, k, p),
{
    let h: usize = horizon;
    let a: usize = player_count;
    let mut etas: Vec<Option<(usize, usize)>> = Vec::new();
    while etas.len() < voyages.len()
        invariant
            etas@.len() <= voyages@.len(),
            etas_match(etas@, voyages@.take(etas@.len() as int)),
        decreases voyages@.len() - etas@.len(),
    {
        let n: usize = etas.len();
        let ghost before = etas@;
        let eta = fleet_eta(&voyages[n]);
        etas.push(eta);
        assert forall|f: int| 0 <= f < etas@.len() implies match #[trigger] etas@[f] {
            Some((j, k)) => voyage(
                voyages@.take(n + 1)[f]@,
                voyages@.take(n + 1)[f]@.len(),
            ) == arriving(j as int, k as int),
            None => !(voyage(voyages@.take(n + 1)[f]@, voyages@.take(n + 1)[f]@.len()) is Arrives),
        } by {
            if f < n {
                assert(etas@[f] == before[f]);
                assert(voyages@.take(n + 1)[f] == voyages@.take(n as int)[f]);
            } else {
                assert(voyages@.take(n + 1)[f] == voyages@[n as int]);
            }
        }
    }
    assert(voyages@.take(etas@.len() as int) =~= voyages@);
    let mut planets: Vec<Projection> = Vec::new();
    while planets.len() < g.planets.len()
        invariant
            planets@.len() <= g.planets@.len(),
            g@.solvent(),
            h < usize::MAX,
            h <= i64::MAX,
            a <= i64::MAX,
            etas@.len() == g.fleets@.len(),
            etas_match(etas@, voyages@),
            crate::state::fleet_ships(g@.fleets) <= i64::MAX,
            forall|i: int| 0 <= i < g@.planets.len() ==> #[trigger] countable(g@, i, h as nat),
            forall|i: int| 0 <= i < planets@.len() ==> (#[trigger] planets@[i]).valid(h as int, a as nat),
            forall|i: int|
                0 <= i < planets@.len() ==> (#[trigger] planets@[i]).forecast() == forecast_of(
                    g@,
                    voyages@,
                    i,
                    h as nat,
                    a as nat,
                ),
        decreases g.planets@.len() - planets@.len(),
    {
        let i: usize = planets.len();
        let p = g.planets[i];
        let ghost f = forecast_of(g@, voyages@, i as int, h as nat, a as nat);
        let arrivals = planet_arrivals(&g.fleets, &etas, i, h, a, Ghost(voyages@));
        let mut alive: Vec<bool> = Vec::new();
        while alive.len() < h + 1
            invariant
                h < usize::MAX,
                alive@.len() <= h + 1,
                forall|k: int| 0 <= k < alive@.len() ==> #[trigger] alive@[k],
            decreases h + 1 - alive@.len(),
        {
            alive.push(true);
        }
        proof {
            assert(alive@ =~= f.alive);
            assert(g@.planets[i as int] == p);
            lemma_coming(g@.fleets, voyages@, i as int, h as nat, a as nat);
            assert(countable(g@, i as int, h as nat));
            assert(f.valid(a as nat));
        }
        let course = crate::forecast::planet_trajectory(
            p.owner,
            p.ships,
            p.production,
            &alive,
            &arrivals,
            Ghost(a as nat),
        );
        let projection = Projection { course, arrivals, prod: p.production, alive };
        proof {
            assert(f.after(0) == f.init);
            assert(projection.course.owner@[0] == f.after(0).owner);
            assert(projection.forecast() == f);
        }
        planets.push(projection);
    }
    let count: usize = planets.len();
    let status = GarrisonStatus { p: count, h, a, planets };
    proof {
        lemma_projected(g@, voyages@, status);
    }
    status
}

/// A projection starts from the planet as it is, lets it make what it makes and last
/// to the horizon, and lets land what is coming.
pub proof fn lemma_projected(g: GameModel, voyages: Seq<Vec<FleetMove>>, status: GarrisonStatus)
    requires
        status.planets@.len() == g.planets.len(),
        forall|f: int| 0 <= f < g.fleets.len() ==> (#[trigger] g.fleets[f]).ships >= 0,
        crate::state::fleet_ships(g.fleets) <= i64::MAX,
        forall|i: int|
            0 <= i < g.planets.len() ==> (#[trigger] status.planets@[i]).forecast() == forecast_of(
                g,
                voyages,
                i,
                status.h as nat,
                status.a as nat,
            ),
    ensures
        forall|i: int|
            0 <= i < g.planets.len() ==> (#[trigger] status.planets@[i]).course.owner@[0] == g.planets[i].owner
                && status.planets@[i].course.ships@[0] == g.planets[i].ships && status.planets@[i].prod
                == g.planets[i].production,
        forall|i: int, k: int|
            0 <= i < g.planets.len() && 0 <= k <= status.h ==> #[trigger] status.planets@[i].alive@[k],
        forall|i: int, k: int, p: int|
            0 <= i < g.planets.len() && 0 <= k <= status.h && 0 <= p < status.a ==> #[trigger] status.planets@[i].arrivals@[k]@[p]
                == coming(g.fleets, voyages, i, k, p),
{
    let (h, a) = (status.h as nat, status.a as nat);
    assert forall|i: int| 0 <= i < g.planets.len() implies (#[trigger] status.planets@[i]).course.owner@[0]
        == g.planets[i].owner && status.planets@[i].course.ships@[0] == g.planets[i].ships && status.planets@[i].prod
        == g.planets[i].production by {
        assert(status.planets@[i].forecast().init == forecast_of(g, voyages, i, h, a).init);
    }
    assert forall|i: int, k: int| 0 <= i < g.planets.len() && 0 <= k <= status.h implies #[trigger] status.planets@[i].alive@[k] by {
        assert(status.planets@[i].forecast().alive == forecast_of(g, voyages, i, h, a).alive);
    }
    assert forall|i: int, k: int, p: int|
        0 <= i < g.planets.len() && 0 <= k <= status.h && 0 <= p < status.a implies #[trigger] status.planets@[i].arrivals@[k]@[p]
        == coming(g.fleets, voyages, i, k, p) by {
        let rows = crate::forecast::rows(status.planets@[i].arrivals@);
        assert(status.planets@[i].forecast().arrivals == rows);
        assert(rows == coming_rows(g.fleets, voyages, i, h, a));
        assert(rows.len() == h + 1);
        assert(rows[k] == status.planets@[i].arrivals@[k]@);
        lemma_coming(g.fleets, voyages, i, h, a);
        assert(0 <= coming(g.fleets, voyages, i, k, p) <= crate::state::fleet_ships(g.fleets));
    }
}

/// Whether all garrisons of `g`, and any launch between them, can be counted
/// over `h` steps.
pub open spec fn roomy(g: GameModel, h: nat) -> bool {
    forall|i: int| 0 <= i < g.planets.len() ==> #[trigger] has_room(g, i, h)
}

pub open spec fn has_room(g: GameModel, i: int, h: nat) -> bool {
    g.planets[i].ships + g.planets[i].production * h + g.ships_in_play() <= crate::forecast::SHIP_LIMIT
}

/// `status` projects the garrisons of `g`, and leaves room for any launch.
pub open spec fn describes(status: GarrisonStatus, g: GameModel) -> bool {
    &&& status.valid()
    &&& status.p == g.planets.len()
    &&& forall|i: int|
        0 <= i < g.planets.len() ==> (#[trigger] status.planets@[i]).forecast().init == (Holding {
            owner: g.planets[i].owner as int,
            ships: g.planets[i].ships as int,
        })
    &&& forall|i: int|
        0 <= i < g.planets.len() ==> (#[trigger] status.planets@[i]).forecast().reach() + crate::state::planet_ships(
            g.planets,
        ) <= crate::forecast::SHIP_LIMIT
    &&& forall|i: int| 0 <= i < g.planets.len() ==> (#[trigger] g.planets[i]).owner < status.a
}

/// The projection of a game with room describes it.
pub proof fn lemma_describes(g: GameModel, voyages: Seq<Vec<FleetMove>>, status: GarrisonStatus)
    requires
        g.solvent(),
        roomy(g, status.h as nat),
        status.valid(),
        status.p == g.planets.len(),
        forall|i: int| 0 <= i < g.planets.len() ==> (#[trigger] g.planets[i]).owner < status.a,
        forall|i: int|
            0 <= i < g.planets.len() ==> (#[trigger] status.planets@[i]).forecast() == forecast_of(
                g,
                voyages,
                i,
                status.h as nat,
                status.a as nat,
            ),
    ensures
        describes(status, g),
{
    assert(crate::tick::manned(g.planets));
    assert forall|i: int| 0 <= i < g.planets.len() implies (#[trigger] status.planets@[i]).forecast().reach()
        + crate::state::planet_ships(g.planets) <= crate::forecast::SHIP_LIMIT by {
        assert(has_room(g, i, status.h as nat));
        crate::tick::lemma_ships_part(g.planets, i);
        assert(g.planets[i].production * status.h >= 0) by (nonlinear_arith)
            requires
                g.planets[i].production >= 0,
        ;
        lemma_coming(g.fleets, voyages, i, status.h as nat, status.a as nat);
    }
}

proof fn lemma_planets_part(planets: Seq<crate::state::Planet>, n: int)
    requires
        crate::tick::manned(planets),
        0 <= n <= planets.len(),
    ensures
        crate::state::planet_ships(planets.take(n)) <= crate::state::planet_ships(planets),
    decreases planets.len() - n,
{
    if n < planets.len() {
        lemma_planets_part(planets, n + 1);
        assert(planets.take(n + 1).drop_last() =~= planets.take(n));
        assert(planets.take(n + 1).last() == planets[n]);
    } else {
        assert(planets.take(n) =~= planets);
    }
}

/// More ships than can be counted leave no room anywhere.
proof fn lemma_overfull(g: GameModel, h: nat)
    requires
        g.solvent(),
        g.planets.len() > 0,
        g.ships_in_play() > crate::forecast::SHIP_LIMIT,
    ensures
        !roomy(g, h),
{
    assert(g.planets[0].production * h >= 0) by (nonlinear_arith)
        requires
            g.planets[0].production >= 0,
    ;
    assert(!has_room(g, 0, h));
}

/// Whether the ships in flight can be counted.
fn fleets_countable(fleets: &Vec<Fleet>) -> (r: bool)
    requires
        forall|m: int| 0 <= m < fleets@.len() ==> (#[trigger] fleets@[m]).ships >= 0,
    ensures
        r == (crate::state::fleet_ships(fleets@) <= i64::MAX),
{
    let mut total: i64 = 0;
    let mut j: usize = 0;
    assert(fleets@.take(0) =~= Seq::empty());
    while j < fleets.len()
        invariant
            j <= fleets@.len(),
            forall|m: int| 0 <= m < fleets@.len() ==> (#[trigger] fleets@[m]).ships >= 0,
            total >= 0,
            total == crate::state::fleet_ships(fleets@.take(j as int)),
        decreases fleets@.len() - j,
    {
        proof {
            assert(fleets@.take(j + 1).drop_last() =~= fleets@.take(j as int));
            lemma_fleets_part(fleets@, j + 1);
        }
        let ships: i64 = fleets[j].ships;
        if ships > i64::MAX - total {
            return false;
        }
        total = total + ships;
        j += 1;
    }
    assert(fleets@.take(j as int) =~= fleets@);
    true
}

/// Whether all garrisons of `g`, and any launch between them, can be counted
/// over `horizon` steps.
pub fn has_room_for(g: &GameState, horizon: usize) -> (r: bool)
    requires
        g@.solvent(),
        horizon <= i64::MAX,
    ensures
        r == (roomy(g@, horizon as nat) && crate::state::fleet_ships(g@.fleets) <= i64::MAX),
        r ==> forall|i: int| 0 <= i < g@.planets.len() ==> #[trigger] countable(g@, i, horizon as nat),
{
    proof {
        assert(crate::tick::manned(g@.planets));
        crate::tick::lemma_ships_total(g@.planets);
        assert(g@.fleets == g.fleets@);
    }
    if !fleets_countable(&g.fleets) {
        return false;
    }
    if g.planets.len() == 0 {
        return true;
    }
    let mut total: i64 = 0;
    let mut i: usize = 0;
    assert(g@.planets.take(0) =~= Seq::empty());
    while i < g.planets.len()
        invariant
            i <= g.planets@.len(),
            g@.solvent(),
            g@.planets.len() > 0,
            crate::tick::manned(g@.planets),
            total == crate::state::planet_ships(g@.planets.take(i as int)),
            0 <= total <= crate::forecast::SHIP_LIMIT,
        decreases g.planets@.len() - i,
    {
        proof {
            assert(g@.planets.take(i + 1).drop_last() =~= g@.planets.take(i as int));
            lemma_planets_part(g@.planets, i + 1);
            crate::tick::lemma_flying(g@.fleets, 0);
        }
        let ships: i64 = g.planets[i].ships;
        assert(g@.planets[i as int].ships >= 0);
        if ships > crate::forecast::SHIP_LIMIT - total {
            proof {
                lemma_overfull(g@, horizon as nat);
            }
            return false;
        }
        total = total + ships;
        i += 1;
    }
    assert(g@.planets.take(i as int) =~= g@.planets);
    let mut j: usize = 0;
    assert(g@.fleets.take(0) =~= Seq::empty());
    while j < g.fleets.len()
        invariant
            j <= g.fleets@.len(),
            g@.solvent(),
            g@.planets.len() > 0,
            total == crate::state::planet_ships(g@.planets) + crate::state::fleet_ships(g@.fleets.take(j as int)),
            0 <= total <= crate::forecast::SHIP_LIMIT,
        decreases g.fleets@.len() - j,
    {
        proof {
            assert(g@.fleets.take(j + 1).drop_last() =~= g@.fleets.take(j as int));
            lemma_fleets_part(g@.fleets, j + 1);
        }
        let ships: i64 = g.fleets[j].ships;
        assert(g@.fleets[j as int].ships >= 0);
        if ships > crate::forecast::SHIP_LIMIT - total {
            proof {
                lemma_overfull(g@, horizon as nat);
            }
            return false;
        }
        total = total + ships;
        j += 1;
    }
    assert(g@.fleets.take(j as int) =~= g@.fleets);
    assert(total == g@.ships_in_play());
    let mut k: usize = 0;
    while k < g.planets.len()
        invariant
            k <= g.planets@.len(),
            horizon <= i64::MAX,
            g@.solvent(),
            total == g@.ships_in_play(),
            0 <= total <= crate::forecast::SHIP_LIMIT,
            forall|m: int| 0 <= m < k ==> #[trigger] has_room(g@, m, horizon as nat),
        decreases g.planets@.len() - k,
    {
        let p = g.planets[k];
        assert(g@.planets[k as int] == p);
        assert(0 <= p.production * horizon <= 0x7fff_ffff_ffff_ffff * 0x7fff_ffff_ffff_ffff) by (nonlinear_arith)
            requires
                0 <= p.production <= 0x7fff_ffff_ffff_ffff,
                0 <= horizon <= 0x7fff_ffff_ffff_ffff,
        ;
        let grown: i128 = p.ships as i128 + p.production as i128 * horizon as i128;
        if grown > (crate::forecast::SHIP_LIMIT - total) as i128 {
            assert(!has_room(g@, k as int, horizon as nat));
            return false;
        }
        k += 1;
    }
    assert forall|m: int| 0 <= m < g@.planets.len() implies #[trigger] countable(g@, m, horizon as nat) by {
        assert(has_room(g@, m, horizon as nat));
    }
    true
}

} // verus!
