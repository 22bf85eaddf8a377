//! What a player sees of the game, laid out for a model: which place each
//! planet, comet and fleet gets, and the counts that go with it. The caller
//! scales the numbers and adds what depends on positions.

use crate::double::{Double, Point};
use crate::state::{copy_paths, copy_state, has_id, Fleet, GameState, Planet, NEUTRAL};
use vstd::prelude::*;

verus! {

use crate::state::{GameModel, GroupModel};

/// Places for planets, comets and fleets.
pub const F_MAX_P: usize = 40;

pub const F_MAX_C: usize = 16;

pub const F_MAX_F: usize = 256;

/// Numbers for each planet, each comet, each fleet, and the game as a whole.
pub const PFD: usize = 20;

pub const CFD: usize = 25;

pub const FFD: usize = 10;

pub const GFD: usize = 11;

/// Places for planets and comets together.
pub const M_PLACES: usize = 56;

/// Numbers that describe a place.
pub const META_W: usize = 8;

/// Where the owner label `o` goes when `player` becomes player 0 of `n`.
pub open spec fn relabelled(o: int, player: int, n: int) -> int {
    if o < 0 {
        o
    } else {
        (o - player) % n
    }
}

/// Relabelling makes the player the first one, keeps neutral planets neutral,
/// and never takes two players for one.
pub proof fn lemma_relabelled(a: int, b: int, player: int, n: int)
    requires
        n > 0,
        0 <= player < n,
    ensures
        relabelled(player, player, n) == 0,
        a < 0 ==> relabelled(a, player, n) == a,
        a >= 0 ==> 0 <= relabelled(a, player, n) < n,
        0 <= a < n && 0 <= b < n && relabelled(a, player, n) == relabelled(b, player, n) ==> a == b,
{
    assert(0int % n == 0);
    if a >= 0 {
        vstd::arithmetic::div_mod::lemma_mod_bound(a - player, n);
    }
    if 0 <= a < n && 0 <= b < n {
        lemma_label(a, player, n);
        lemma_label(b, player, n);
    }
}

proof fn lemma_label(a: int, player: int, n: int)
    requires
        0 <= a < n,
        0 <= player < n,
    ensures
        (a - player) % n == (if a >= player {
            a - player
        } else {
            a - player + n
        }),
{
    if a >= player {
        vstd::arithmetic::div_mod::lemma_small_mod((a - player) as nat, n as nat);
    } else {
        vstd::arithmetic::div_mod::lemma_small_mod((a - player + n) as nat, n as nat);
        vstd::arithmetic::div_mod::lemma_mod_add_multiples_vanish(a - player, n);
        assert((n + (a - player)) % n == (a - player) % n);
    }
}

/// Seats keep their order round the table: the player becomes player 0, the one `k`
/// seats further on becomes player `k`, and after the last seat the first one follows.
pub proof fn lemma_seats_in_order(player: int, n: int, k: int, o: int)
    requires
        0 <= player < n,
        0 <= k < n,
        o >= 0,
        o == player + k || o == player + k - n,
    ensures
        relabelled(o, player, n) == k,
{
    if o == player + k {
        vstd::arithmetic::div_mod::lemma_small_mod(k as nat, n as nat);
    } else {
        lemma_label(o, player, n);
    }
}

/// A label counts the seats from the player on, but for whole rounds of the table.
pub proof fn lemma_whole_rounds(o: int, player: int, n: int)
    requires
        n > 0,
        o >= 0,
    ensures
        0 <= relabelled(o, player, n) < n,
        exists|rounds: int| o - player == relabelled(o, player, n) + #[trigger] (rounds * n),
{
    let d = o - player;
    vstd::arithmetic::div_mod::lemma_mod_bound(d, n);
    vstd::arithmetic::div_mod::lemma_fundamental_div_mod(d, n);
    let q = d / n;
    assert(n * q == q * n) by (nonlinear_arith);
    assert(d == relabelled(o, player, n) + q * n);
}

/// The greatest owner of the planets, or -1 where it is less.
pub open spec fn top_planet_owner(planets: Seq<Planet>) -> int
    decreases planets.len(),
{
    if planets.len() == 0 {
        -1
    } else {
        let front = top_planet_owner(planets.drop_last());
        if planets.last().owner > front {
            planets.last().owner as int
        } else {
            front
        }
    }
}

/// The greatest owner of the fleets, or -1 where it is less.
pub open spec fn top_fleet_owner(fleets: Seq<Fleet>) -> int
    decreases fleets.len(),
{
    if fleets.len() == 0 {
        -1
    } else {
        let front = top_fleet_owner(fleets.drop_last());
        if fleets.last().owner > front {
            fleets.last().owner as int
        } else {
            front
        }
    }
}

/// How many players the game is for, as its owners show: four where a third
/// player is seen, and else two.
pub open spec fn table_size(g: GameModel) -> int {
    if top_planet_owner(g.planets) >= 2 || top_fleet_owner(g.fleets) >= 2 {
        4
    } else {
        2
    }
}

proof fn lemma_top_owners(planets: Seq<Planet>, fleets: Seq<Fleet>)
    ensures
        top_planet_owner(planets) >= 2 <==> exists|i: int| 0 <= i < planets.len() && (#[trigger] planets[i]).owner >= 2,
        top_fleet_owner(fleets) >= 2 <==> exists|i: int| 0 <= i < fleets.len() && (#[trigger] fleets[i]).owner >= 2,
    decreases planets.len() + fleets.len(),
{
    if planets.len() > 0 {
        let front = planets.drop_last();
        lemma_top_owners(front, Seq::empty());
        assert forall|i: int| 0 <= i < front.len() implies #[trigger] planets[i] == front[i] by {}
        if top_planet_owner(planets) >= 2 {
            if planets[planets.len() - 1].owner < 2 {
                let i = choose|i: int| 0 <= i < front.len() && (#[trigger] front[i]).owner >= 2;
                assert(planets[i].owner >= 2);
            }
        }
        if exists|i: int| 0 <= i < planets.len() && (#[trigger] planets[i]).owner >= 2 {
            let i = choose|i: int| 0 <= i < planets.len() && (#[trigger] planets[i]).owner >= 2;
            if i < front.len() {
                assert(front[i].owner >= 2);
            }
        }
    }
    if fleets.len() > 0 {
        let front = fleets.drop_last();
        lemma_top_owners(Seq::empty(), front);
        assert forall|i: int| 0 <= i < front.len() implies #[trigger] fleets[i] == front[i] by {}
        if top_fleet_owner(fleets) >= 2 {
            if fleets[fleets.len() - 1].owner < 2 {
                let i = choose|i: int| 0 <= i < front.len() && (#[trigger] front[i]).owner >= 2;
                assert(fleets[i].owner >= 2);
            }
        }
        if exists|i: int| 0 <= i < fleets.len() && (#[trigger] fleets[i]).owner >= 2 {
            let i = choose|i: int| 0 <= i < fleets.len() && (#[trigger] fleets[i]).owner >= 2;
            if i < front.len() {
                assert(front[i].owner >= 2);
            }
        }
    }
}

/// A game is for four players just where one of them is seen that a game for two does
/// not have.
pub proof fn lemma_table(g: GameModel)
    ensures
        table_size(g) == 2 || table_size(g) == 4,
        table_size(g) == 4 <==> (exists|i: int| 0 <= i < g.planets.len() && (#[trigger] g.planets[i]).owner >= 2) || (exists|
            i: int,
        |
            0 <= i < g.fleets.len() && (#[trigger] g.fleets[i]).owner >= 2),
{
    lemma_top_owners(g.planets, g.fleets);
}

/// How many players the game is for, as its owners show.
pub fn table(g: &GameState) -> (n: i64)
    ensures
        n == table_size(g@),
        n == 2 || n == 4,
        n == 4 <==> (exists|i: int| 0 <= i < g@.planets.len() && (#[trigger] g@.planets[i]).owner >= 2) || (exists|
            i: int,
        |
            0 <= i < g@.fleets.len() && (#[trigger] g@.fleets[i]).owner >= 2),
{
    proof {
        lemma_table(g@);
    }
    let mut top: i64 = -1;
    let mut i: usize = 0;
    assert(g@.planets.take(0) =~= Seq::<Planet>::empty());
    while i < g.planets.len()
        invariant
            i <= g.planets@.len(),
            top == top_planet_owner(g@.planets.take(i as int)),
        decreases g.planets@.len() - i,
    {
        assert(g@.planets.take(i + 1).drop_last() =~= g@.planets.take(i as int));
        if g.planets[i].owner > top {
            top = g.planets[i].owner;
        }
        i += 1;
    }
    assert(g@.planets.take(i as int) =~= g@.planets);
    let mut high: i64 = -1;
    let mut j: usize = 0;
    assert(g@.fleets.take(0) =~= Seq::<Fleet>::empty());
    while j < g.fleets.len()
        invariant
            j <= g.fleets@.len(),
            high == top_fleet_owner(g@.fleets.take(j as int)),
        decreases g.fleets@.len() - j,
    {
        assert(g@.fleets.take(j + 1).drop_last() =~= g@.fleets.take(j as int));
        if g.fleets[j].owner > high {
            high = g.fleets[j].owner;
        }
        j += 1;
    }
    assert(g@.fleets.take(j as int) =~= g@.fleets);
    if top >= 2 || high >= 2 {
        4
    } else {
        2
    }
}

/// Quarter turns that bring `player` of `n` to the place of player 0. With four
/// players, the seats of players 2 and 3 are crossed.
pub open spec fn turns(n: int, player: int) -> int {
    if n == 4 {
        if player == 2 {
            3
        } else if player == 3 {
            2
        } else {
            player
        }
    } else {
        2 * player
    }
}

/// Quarter turns that bring `player` to the place of player 0.
pub fn quarter_turns(n: i64, player: i64) -> (q: i64)
    requires
        n == 4 ==> 0 <= player < 4,
        -0x4000_0000_0000_0000 <= player < 0x4000_0000_0000_0000,
    ensures
        q == turns(n as int, player as int),
{
    if n == 4 {
        if player == 2 {
            3
        } else if player == 3 {
            2
        } else {
            player
        }
    } else {
        2 * player
    }
}

/// With four players, seats 0 and 1 are in one row and 2 and 3 in the other, with 0 and
/// 2 in one column: a turn goes along the first row and back along the other. With two
/// players, each is half a turn from the one before.
pub proof fn lemma_turns(player: int)
    ensures
        0 <= player < 4 ==> 0 <= turns(4, player) < 4,
        0 <= player < 4 ==> (turns(4, player) < 2 <==> player < 2),
        0 <= player < 4 ==> (turns(4, player) == 1 || turns(4, player) == 2 <==> player % 2 == 1),
        turns(2, 0) == 0,
        turns(2, player + 1) == turns(2, player) + 2,
{
}

/// A place and a direction.
#[derive(Clone, Copy, PartialEq, Eq, Structural, Debug)]
pub struct Heading {
    pub at: Point,
    pub angle: Double,
}

/// The game turned round: where planets and fleets are then, and the points of
/// the comet paths.
pub struct Turned {
    pub planets: Vec<Point>,
    pub fleets: Vec<Heading>,
    pub comets: Vec<Vec<Vec<Point>>>,
}

/// The planet, turned and relabelled.
pub open spec fn turned_planet(p: Planet, at: Point, player: i64, n: int) -> Planet {
    Planet { owner: relabelled(p.owner as int, player as int, n) as i64, x: at.x, y: at.y, ..p }
}

/// The fleet, turned and relabelled.
pub open spec fn turned_fleet(f: Fleet, h: Heading, player: i64, n: int) -> Fleet {
    Fleet {
        owner: relabelled(f.owner as int, player as int, n) as i64,
        x: h.at.x,
        y: h.at.y,
        angle: h.angle,
        ..f
    }
}

/// The game as `player` sees it: turned round, with `player` as player 0. Player
/// 0 sees it as it is.
pub open spec fn canonical(g: GameModel, player: i64, t: Turned) -> GameModel {
    if player == 0 {
        g
    } else {
        let n = table_size(g);
        GameModel {
            planets: Seq::new(
                g.planets.len(),
                |i: int| turned_planet(g.planets[i], t.planets@[i], player, n),
            ),
            fleets: Seq::new(g.fleets.len(), |i: int| turned_fleet(g.fleets[i], t.fleets@[i], player, n)),
            comets: Seq::new(
                g.comets.len(),
                |i: int| GroupModel { paths: crate::state::paths_model(t.comets@[i]@), ..g.comets[i] },
            ),
            ..g
        }
    }
}

fn relabel(o: i64, player: i64, n: i64) -> (r: i64)
    requires
        n == 2 || n == 4,
    ensures
        r == relabelled(o as int, player as int, n as int),
{
    if o < 0 {
        return o;
    }
    let d: i128 = o as i128 - player as i128;
    let n: i128 = n as i128;
    if d >= 0 {
        (d % n) as i64
    } else {
        let m: i128 = (-d) % n;
        let r: i128 = if m == 0 {
            0
        } else {
            n - m
        };
        proof {
            let q = (-d) as int / n as int;
            vstd::arithmetic::div_mod::lemma_fundamental_div_mod((-d) as int, n as int);
            if m == 0 {
                assert(d == (-q) * n + 0) by (nonlinear_arith)
                    requires
                        -d == n * q + m,
                        m == 0,
                ;
                vstd::arithmetic::div_mod::lemma_fundamental_div_mod_converse(d as int, n as int, -q, 0);
            } else {
                assert(d == (-q - 1) * n + (n - m)) by (nonlinear_arith)
                    requires
                        -d == n * q + m,
                ;
                vstd::arithmetic::div_mod::lemma_fundamental_div_mod_converse(
                    d as int,
                    n as int,
                    -q - 1,
                    n - m,
                );
            }
        }
        r as i64
    }
}

/// `t` has a place for everything in `g`.
pub open spec fn turn_fits(g: GameModel, t: Turned) -> bool {
    &&& t.planets@.len() == g.planets.len()
    &&& t.fleets@.len() == g.fleets.len()
    &&& t.comets@.len() == g.comets.len()
}

/// `o` sits `k` seats further on than `player` at a table of `n`.
pub open spec fn is_further(o: int, player: int, k: int, n: int) -> bool {
    o == player + k || o == player + k - n
}

/// Seen by a player, planets and fleets are what they were, but for their places and
/// their owners; what nobody holds stays so, and the owners keep their order round the
/// table, from the player on.
pub proof fn lemma_canonical(g: GameModel, player: i64, t: Turned)
    ensures
        ({
            let r = canonical(g, player, t);
            &&& r.planets.len() == g.planets.len()
            &&& r.fleets.len() == g.fleets.len()
            &&& r.comet_planet_ids == g.comet_planet_ids
            &&& r.initial_planets == g.initial_planets
            &&& r.next_fleet_id == g.next_fleet_id
            &&& r.angular_velocity == g.angular_velocity
            &&& r.comets.len() == g.comets.len()
            &&& forall|i: int|
                0 <= i < g.comets.len() ==> (#[trigger] r.comets[i]).planet_ids == g.comets[i].planet_ids
                    && r.comets[i].path_index == g.comets[i].path_index
            &&& forall|i: int|
                0 <= i < g.planets.len() ==> (#[trigger] r.planets[i]).id == g.planets[i].id && r.planets[i].ships
                    == g.planets[i].ships && r.planets[i].production == g.planets[i].production && r.planets[i].radius
                    == g.planets[i].radius
            &&& forall|i: int|
                0 <= i < g.fleets.len() ==> (#[trigger] r.fleets[i]).id == g.fleets[i].id && r.fleets[i].ships
                    == g.fleets[i].ships && r.fleets[i].from_planet_id == g.fleets[i].from_planet_id
            &&& forall|i: int|
                0 <= i < g.planets.len() && (#[trigger] g.planets[i]).owner < 0 ==> r.planets[i].owner
                    == g.planets[i].owner
            &&& forall|i: int, k: int|
                0 <= i < g.planets.len() && 0 <= player < table_size(g) && 0 <= k < table_size(g) && 0
                    <= g.planets[i].owner && #[trigger] is_further(
                    g.planets[i].owner as int,
                    player as int,
                    k,
                    table_size(g),
                ) ==> r.planets[i].owner == k
            &&& forall|i: int, k: int|
                0 <= i < g.fleets.len() && 0 <= player < table_size(g) && 0 <= k < table_size(g) && 0 <= g.fleets[i].owner
                    && #[trigger] is_further(g.fleets[i].owner as int, player as int, k, table_size(g))
                    ==> r.fleets[i].owner == k
            &&& player != 0 ==> forall|i: int|
                0 <= i < g.planets.len() ==> (#[trigger] r.planets[i]).x == t.planets@[i].x && r.planets[i].y
                    == t.planets@[i].y
            &&& player != 0 ==> forall|i: int|
                0 <= i < g.fleets.len() ==> (#[trigger] r.fleets[i]).x == t.fleets@[i].at.x && r.fleets[i].y
                    == t.fleets@[i].at.y && r.fleets[i].angle == t.fleets@[i].angle
        }),
{
    let n = table_size(g);
    let r = canonical(g, player, t);
    lemma_table(g);
    assert forall|i: int, k: int|
        0 <= i < g.planets.len() && 0 <= player < n && 0 <= k < n && 0 <= g.planets[i].owner && #[trigger] is_further(
            g.planets[i].owner as int,
            player as int,
            k,
            n,
        ) implies r.planets[i].owner == k by {
        lemma_seats_in_order(player as int, n, k, g.planets[i].owner as int);
        if player == 0 && g.planets[i].owner != k {
            assert(g.planets[i].owner == k - n);
        }
    }
    assert forall|i: int, k: int|
        0 <= i < g.fleets.len() && 0 <= player < n && 0 <= k < n && 0 <= g.fleets[i].owner && #[trigger] is_further(
            g.fleets[i].owner as int,
            player as int,
            k,
            n,
        ) implies r.fleets[i].owner == k by {
        lemma_seats_in_order(player as int, n, k, g.fleets[i].owner as int);
        if player == 0 && g.fleets[i].owner != k {
            assert(g.fleets[i].owner == k - n);
        }
    }
}

/// The game as `player` sees it, where `t` is the game turned round.
pub fn canonicalize_state(g: &GameState, player: i64, t: &Turned) -> (r: GameState)
    requires
        table_size(g@) == 4 ==> 0 <= player < 4,
        player != 0 ==> turn_fits(g@, *t),
    ensures
        r@ == canonical(g@, player, *t),
        r@.planets.len() == g@.planets.len(),
        r@.fleets.len() == g@.fleets.len(),
        forall|i: int|
            0 <= i < g@.planets.len() ==> (#[trigger] r@.planets[i]).id == g@.planets[i].id && r@.planets[i].ships
                == g@.planets[i].ships && r@.planets[i].production == g@.planets[i].production && r@.planets[i].radius
                == g@.planets[i].radius,
        forall|i: int|
            0 <= i < g@.fleets.len() ==> (#[trigger] r@.fleets[i]).id == g@.fleets[i].id && r@.fleets[i].ships
                == g@.fleets[i].ships && r@.fleets[i].from_planet_id == g@.fleets[i].from_planet_id,
        forall|i: int|
            0 <= i < g@.planets.len() && (#[trigger] g@.planets[i]).owner < 0 ==> r@.planets[i].owner == g@.planets[i].owner,
        forall|i: int, k: int|
            0 <= i < g@.planets.len() && 0 <= player < table_size(g@) && 0 <= k < table_size(g@) && 0
                <= g@.planets[i].owner && #[trigger] is_further(g@.planets[i].owner as int, player as int, k, table_size(g@))
                ==> r@.planets[i].owner == k,
        forall|i: int, k: int|
            0 <= i < g@.fleets.len() && 0 <= player < table_size(g@) && 0 <= k < table_size(g@) && 0 <= g@.fleets[i].owner
                && #[trigger] is_further(g@.fleets[i].owner as int, player as int, k, table_size(g@)) ==> r@.fleets[i].owner
                == k,
{
    proof {
        lemma_canonical(g@, player, *t);
    }
    let mut r = copy_state(g);
    if player == 0 {
        return r;
    }
    let n: i64 = table(g);
    let ghost all = canonical(g@, player, *t);
    let mut i: usize = 0;
    while i < r.planets.len()
        invariant
            i <= r.planets@.len(),
            r.planets@.len() == g@.planets.len(),
            n == table_size(g@),
            player != 0,
            turn_fits(g@, *t),
            all == canonical(g@, player, *t),
            r@ == (GameModel { planets: r@.planets, ..g@ }),
            forall|k: int| 0 <= k < i ==> #[trigger] r@.planets[k] == all.planets[k],
            forall|k: int| i <= k < g@.planets.len() ==> #[trigger] r@.planets[k] == g@.planets[k],
        decreases r.planets@.len() - i,
    {
        let p = r.planets[i];
        assert(p == g@.planets[i as int]);
        let at = t.planets[i];
        r.planets[i] = Planet { owner: relabel(p.owner, player, n), x: at.x, y: at.y, ..p };
        i += 1;
    }
    assert(r@.planets =~= all.planets);
    let mut j: usize = 0;
    while j < r.fleets.len()
        invariant
            j <= r.fleets@.len(),
            r.fleets@.len() == g@.fleets.len(),
            n == table_size(g@),
            player != 0,
            turn_fits(g@, *t),
            all == canonical(g@, player, *t),
            r@ == (GameModel { planets: all.planets, fleets: r@.fleets, ..g@ }),
            forall|k: int| 0 <= k < j ==> #[trigger] r@.fleets[k] == all.fleets[k],
            forall|k: int| j <= k < g@.fleets.len() ==> #[trigger] r@.fleets[k] == g@.fleets[k],
        decreases r.fleets@.len() - j,
    {
        let f = r.fleets[j];
        assert(f == g@.fleets[j as int]);
        let h = t.fleets[j];
        r.fleets[j] = Fleet { owner: relabel(f.owner, player, n), x: h.at.x, y: h.at.y, angle: h.angle, ..f };
        j += 1;
    }
    assert(r@.fleets =~= all.fleets);
    let mut c: usize = 0;
    while c < r.comets.len()
        invariant
            c <= r.comets@.len(),
            r.comets@.len() == g@.comets.len(),
            player != 0,
            turn_fits(g@, *t),
            all == canonical(g@, player, *t),
            r@ == (GameModel { planets: all.planets, fleets: all.fleets, comets: r@.comets, ..g@ }),
            forall|k: int| 0 <= k < c ==> #[trigger] r@.comets[k] == all.comets[k],
            forall|k: int| c <= k < g@.comets.len() ==> #[trigger] r@.comets[k] == g@.comets[k],
        decreases r.comets@.len() - c,
    {
        let ghost before = r@.comets;
        assert(before[c as int] == g@.comets[c as int]);
        assert(r.comets@[c as int]@ == before[c as int]);
        let paths = copy_paths(&t.comets[c]);
        r.comets[c].paths = paths;
        assert(r.comets@[c as int]@ =~= all.comets[c as int]);
        assert forall|k: int| 0 <= k < r@.comets.len() && k != c implies #[trigger] r@.comets[k] == before[k] by {}
        c += 1;
    }
    assert(r@.comets =~= all.comets);
    r
}

/// The first comet of group `g`, among its first `n`, that has the id and a
/// path with points.
pub open spec fn comet_in(g: GroupModel, id: i64, n: nat) -> Option<int>
    decreases n,
{
    if n == 0 {
        None
    } else {
        match comet_in(g, id, (n - 1) as nat) {
            Some(k) => Some(k),
            None => if g.planet_ids[n - 1] == id && n - 1 < g.paths.len() && g.paths[n - 1].len() > 0 {
                Some(n - 1)
            } else {
                None
            },
        }
    }
}

/// The group and the place in it of the first comet with the id, among the first
/// `n` groups.
pub open spec fn comet_of(comets: Seq<GroupModel>, id: i64, n: nat) -> Option<(int, int)>
    decreases n,
{
    if n == 0 {
        None
    } else {
        match comet_of(comets, id, (n - 1) as nat) {
            Some(c) => Some(c),
            None => match comet_in(comets[n - 1], id, comets[n - 1].planet_ids.len()) {
                Some(k) => Some((n - 1, k)),
                None => None,
            },
        }
    }
}

proof fn lemma_comet_in_stays(g: GroupModel, id: i64, n: nat, m: nat)
    requires
        n <= m,
        comet_in(g, id, n) is Some,
    ensures
        comet_in(g, id, m) == comet_in(g, id, n),
    decreases m,
{
    if n < m {
        lemma_comet_in_stays(g, id, n, (m - 1) as nat);
    }
}

proof fn lemma_comet_of_stays(comets: Seq<GroupModel>, id: i64, n: nat, m: nat)
    requires
        n <= m,
        comet_of(comets, id, n) is Some,
    ensures
        comet_of(comets, id, m) == comet_of(comets, id, n),
    decreases m,
{
    if n < m {
        lemma_comet_of_stays(comets, id, n, (m - 1) as nat);
    }
}

/// The `b`-th comet of group `a` is planet `id`, and has a path to follow.
pub open spec fn follows_path(comets: Seq<GroupModel>, id: i64, a: int, b: int) -> bool {
    &&& 0 <= a < comets.len()
    &&& 0 <= b < comets[a].planet_ids.len()
    &&& b < comets[a].paths.len()
    &&& comets[a].planet_ids[b] == id
    &&& comets[a].paths[b].len() > 0
}

proof fn lemma_comet_in(g: GroupModel, id: i64, n: nat)
    ensures
        match comet_in(g, id, n) {
            Some(k) => 0 <= k < n && k < g.paths.len() && g.planet_ids[k] == id && g.paths[k].len() > 0 && forall|b: int|
                0 <= b < k && b < g.paths.len() && #[trigger] g.planet_ids[b] == id ==> g.paths[b].len() == 0,
            None => forall|b: int|
                0 <= b < n && b < g.paths.len() && #[trigger] g.planet_ids[b] == id ==> g.paths[b].len() == 0,
        },
    decreases n,
{
    if n > 0 {
        lemma_comet_in(g, id, (n - 1) as nat);
    }
}

/// The path that is found is one that the planet follows, and the first one; none is
/// found just where it follows none.
pub proof fn lemma_comet_of(comets: Seq<GroupModel>, id: i64, n: nat)
    requires
        n <= comets.len(),
    ensures
        match comet_of(comets, id, n) {
            Some((c, k)) => c < n && follows_path(comets, id, c, k) && forall|a: int, b: int|
                #[trigger] follows_path(comets, id, a, b) ==> c < a || (c == a && k <= b),
            None => forall|a: int, b: int| a < n ==> !#[trigger] follows_path(comets, id, a, b),
        },
    decreases n,
{
    if n > 0 {
        lemma_comet_of(comets, id, (n - 1) as nat);
        lemma_comet_in(comets[n - 1], id, comets[n - 1].planet_ids.len());
    }
}

/// The path that planet `id` follows: the group, and the place in it.
pub fn find_comet(g: &GameState, id: i64) -> (r: Option<(usize, usize)>)
    ensures
        match r {
            Some((c, k)) => comet_of(g@.comets, id, g@.comets.len()) == Some((c as int, k as int)) && c
                < g@.comets.len() && k < g@.comets[c as int].paths.len() && g@.comets[c as int].paths[k as int].len() > 0,
            None => comet_of(g@.comets, id, g@.comets.len()) is None,
        },
        match r {
            Some((c, k)) => follows_path(g@.comets, id, c as int, k as int) && forall|a: int, b: int|
                #[trigger] follows_path(g@.comets, id, a, b) ==> c < a || (c == a && k <= b),
            None => forall|a: int, b: int| !#[trigger] follows_path(g@.comets, id, a, b),
        },
{
    let mut c: usize = 0;
    while c < g.comets.len()
        invariant
            c <= g.comets@.len(),
            comet_of(g@.comets, id, c as nat) is None,
        decreases g.comets@.len() - c,
    {
        let group = &g.comets[c];
        let ghost m = g@.comets[c as int];
        assert(m == group@);
        let mut k: usize = 0;
        while k < group.planet_ids.len()
            invariant
                k <= group.planet_ids@.len(),
                c < g.comets@.len(),
                *group == g.comets@[c as int],
                m == g@.comets[c as int],
                m == group@,
                comet_of(g@.comets, id, c as nat) is None,
                comet_in(m, id, k as nat) is None,
            decreases group.planet_ids@.len() - k,
        {
            if group.planet_ids[k] == id && k < group.paths.len() {
                assert(m.paths[k as int] == group.paths@[k as int]@);
                if group.paths[k].len() > 0 {
                    proof {
                        lemma_comet_in_stays(m, id, (k + 1) as nat, m.planet_ids.len());
                        lemma_comet_of_stays(g@.comets, id, (c + 1) as nat, g@.comets.len());
                        lemma_comet_of(g@.comets, id, g@.comets.len());
                    }
                    return Some((c, k));
                }
            }
            k += 1;
        }
        c += 1;
    }
    proof {
        lemma_comet_of(g@.comets, id, g@.comets.len());
    }
    None
}

/// The point at which a comet is `h` steps from place `path_index` of a path of
/// `n` points: it waits at the first point and stays at the last one.
pub open spec fn point_after(n: int, path_index: int, h: int) -> int {
    if path_index + h < 0 {
        0
    } else if path_index + h >= n - 1 {
        n - 1
    } else {
        path_index + h
    }
}

/// Which point of a path of `n` points a comet is at, `h` steps from now.
pub fn comet_point_at(n: usize, path_index: i64, h: i64) -> (i: usize)
    requires
        n > 0,
        i64::MIN <= path_index + h <= i64::MAX,
    ensures
        i == point_after(n as int, path_index as int, h as int),
        i < n,
        0 <= path_index + h < n ==> i == path_index + h,
        path_index + h < 0 ==> i == 0,
        path_index + h >= n ==> i == n - 1,
{
    let at: i64 = path_index + h;
    if at < 0 {
        0
    } else if at as u64 >= (n - 1) as u64 {
        n - 1
    } else {
        at as usize
    }
}

/// The point from which the velocity of a comet is taken, on to the next one:
/// the one it is at, but neither before the first nor after the last but one.
pub open spec fn velocity_point(n: int, path_index: int) -> int {
    let top = if n >= 2 {
        n - 2
    } else {
        0
    };
    if path_index < 0 {
        0
    } else if path_index > top {
        top
    } else {
        path_index
    }
}

/// From which point of a path of `n` points the velocity of a comet is taken.
pub fn comet_velocity_at(n: usize, path_index: i64) -> (i: usize)
    ensures
        i == velocity_point(n as int, path_index as int),
        n >= 2 ==> i + 1 < n,
        0 <= path_index && path_index + 1 < n ==> i == path_index,
        path_index < 0 || n < 2 ==> i == 0,
        n >= 2 && path_index + 1 >= n ==> i == n - 2,
{
    let top: usize = if n >= 2 {
        n - 2
    } else {
        0
    };
    if path_index < 0 {
        0
    } else if path_index as u64 > top as u64 {
        top
    } else {
        path_index as usize
    }
}

/// The length of the longest path among `paths`.
pub open spec fn longest_path(paths: Seq<Seq<Point>>) -> nat
    decreases paths.len(),
{
    if paths.len() == 0 {
        0
    } else {
        let front = longest_path(paths.drop_last());
        if paths.last().len() > front {
            paths.last().len()
        } else {
            front
        }
    }
}

/// The length of the longest path among the groups.
pub open spec fn longest_in(comets: Seq<GroupModel>) -> nat
    decreases comets.len(),
{
    if comets.len() == 0 {
        0
    } else {
        let front = longest_in(comets.drop_last());
        let last = longest_path(comets.last().paths);
        if last > front {
            last
        } else {
            front
        }
    }
}

/// The length of the longest comet path in any of the games.
pub open spec fn longest_of(states: Seq<GameState>) -> nat
    decreases states.len(),
{
    if states.len() == 0 {
        0
    } else {
        let front = longest_of(states.drop_last());
        let last = longest_in(states.last()@.comets);
        if last > front {
            last
        } else {
            front
        }
    }
}

proof fn lemma_longest_path(paths: Seq<Seq<Point>>)
    ensures
        forall|k: int| 0 <= k < paths.len() ==> (#[trigger] paths[k]).len() <= longest_path(paths),
        longest_path(paths) > 0 ==> exists|k: int|
            0 <= k < paths.len() && (#[trigger] paths[k]).len() == longest_path(paths),
    decreases paths.len(),
{
    if paths.len() > 0 {
        let front = paths.drop_last();
        lemma_longest_path(front);
        assert forall|k: int| 0 <= k < paths.len() implies (#[trigger] paths[k]).len() <= longest_path(paths) by {
            if k < front.len() {
                assert(front[k] == paths[k]);
            }
        }
        if paths.last().len() > longest_path(front) {
            assert(paths[paths.len() - 1].len() == longest_path(paths));
        } else if longest_path(front) > 0 {
            let k = choose|k: int| 0 <= k < front.len() && (#[trigger] front[k]).len() == longest_path(front);
            assert(paths[k].len() == longest_path(paths));
        }
    }
}

proof fn lemma_longest_in(comets: Seq<GroupModel>)
    ensures
        forall|c: int, k: int|
            0 <= c < comets.len() && 0 <= k < comets[c].paths.len() ==> (#[trigger] comets[c].paths[k]).len()
                <= longest_in(comets),
        longest_in(comets) > 0 ==> exists|c: int, k: int|
            0 <= c < comets.len() && 0 <= k < comets[c].paths.len() && (#[trigger] comets[c].paths[k]).len()
                == longest_in(comets),
    decreases comets.len(),
{
    if comets.len() > 0 {
        let front = comets.drop_last();
        let last = comets.len() - 1;
        lemma_longest_in(front);
        lemma_longest_path(comets[last].paths);
        assert forall|c: int, k: int| 0 <= c < comets.len() && 0 <= k < comets[c].paths.len() implies (
        #[trigger] comets[c].paths[k]).len() <= longest_in(comets) by {
            if c < last {
                assert(front[c].paths[k].len() <= longest_in(front));
            }
        }
        if longest_path(comets[last].paths) > longest_in(front) {
            let k = choose|k: int|
                0 <= k < comets[last].paths.len() && (#[trigger] comets[last].paths[k]).len() == longest_path(
                    comets[last].paths,
                );
            assert(comets[last].paths[k].len() == longest_in(comets));
        } else if longest_in(front) > 0 {
            let (c, k) = choose|c: int, k: int|
                0 <= c < front.len() && 0 <= k < front[c].paths.len() && (#[trigger] front[c].paths[k]).len()
                    == longest_in(front);
            assert(comets[c].paths[k].len() == longest_in(comets));
        }
    }
}

/// No comet path in any of the games is longer than the longest one, and one is as
/// long, unless there are none.
pub proof fn lemma_longest(states: Seq<GameState>)
    ensures
        forall|e: int, c: int, k: int|
            0 <= e < states.len() && 0 <= c < states[e]@.comets.len() && 0 <= k < states[e]@.comets[c].paths.len() ==> (
            #[trigger] states[e]@.comets[c].paths[k]).len() <= longest_of(states),
        longest_of(states) > 0 ==> exists|e: int, c: int, k: int|
            0 <= e < states.len() && 0 <= c < states[e]@.comets.len() && 0 <= k < states[e]@.comets[c].paths.len() && (
            #[trigger] states[e]@.comets[c].paths[k]).len() == longest_of(states),
    decreases states.len(),
{
    if states.len() > 0 {
        let front = states.drop_last();
        let last = states.len() - 1;
        lemma_longest(front);
        lemma_longest_in(states[last]@.comets);
        assert forall|e: int, c: int, k: int|
            0 <= e < states.len() && 0 <= c < states[e]@.comets.len() && 0 <= k < states[e]@.comets[c].paths.len() implies (
        #[trigger] states[e]@.comets[c].paths[k]).len() <= longest_of(states) by {
            if e < last {
                assert(front[e]@.comets[c].paths[k].len() <= longest_of(front));
            }
        }
        if longest_in(states[last]@.comets) > longest_of(front) {
            let (c, k) = choose|c: int, k: int|
                0 <= c < states[last]@.comets.len() && 0 <= k < states[last]@.comets[c].paths.len() && (
                #[trigger] states[last]@.comets[c].paths[k]).len() == longest_in(states[last]@.comets);
            assert(states[last]@.comets[c].paths[k].len() == longest_of(states));
        } else if longest_of(front) > 0 {
            let (e, c, k) = choose|e: int, c: int, k: int|
                0 <= e < front.len() && 0 <= c < front[e]@.comets.len() && 0 <= k < front[e]@.comets[c].paths.len() && (
                #[trigger] front[e]@.comets[c].paths[k]).len() == longest_of(front);
            assert(states[e]@.comets[c].paths[k].len() == longest_of(states));
        }
    }
}

fn longest_in_game(g: &GameState) -> (m: usize)
    ensures
        m == longest_in(g@.comets),
{
    let mut m: usize = 0;
    let mut c: usize = 0;
    assert(g@.comets.take(0) =~= Seq::<GroupModel>::empty());
    while c < g.comets.len()
        invariant
            c <= g.comets@.len(),
            m == longest_in(g@.comets.take(c as int)),
        decreases g.comets@.len() - c,
    {
        let group = &g.comets[c];
        let ghost paths = g@.comets[c as int].paths;
        assert(g@.comets[c as int] == group@);
        let mut best: usize = 0;
        let mut k: usize = 0;
        assert(paths.take(0) =~= Seq::<Seq<Point>>::empty());
        while k < group.paths.len()
            invariant
                k <= group.paths@.len(),
                paths == crate::state::paths_model(group.paths@),
                best == longest_path(paths.take(k as int)),
            decreases group.paths@.len() - k,
        {
            assert(paths.take(k + 1).drop_last() =~= paths.take(k as int));
            assert(paths[k as int] == group.paths@[k as int]@);
            let len: usize = group.paths[k].len();
            if len > best {
                best = len;
            }
            k += 1;
        }
        assert(paths.take(k as int) =~= paths);
        assert(g@.comets.take(c + 1).drop_last() =~= g@.comets.take(c as int));
        if best > m {
            m = best;
        }
        c += 1;
    }
    assert(g@.comets.take(c as int) =~= g@.comets);
    m
}

/// The length of the longest comet path in any of the games.
pub fn max_comet_path_len(states: &Vec<GameState>) -> (m: usize)
    ensures
        m == longest_of(states@),
        forall|e: int, c: int, k: int|
            0 <= e < states@.len() && 0 <= c < states@[e]@.comets.len() && 0 <= k < states@[e]@.comets[c].paths.len()
                ==> (#[trigger] states@[e]@.comets[c].paths[k]).len() <= m,
        m > 0 ==> exists|e: int, c: int, k: int|
            0 <= e < states@.len() && 0 <= c < states@[e]@.comets.len() && 0 <= k < states@[e]@.comets[c].paths.len() && (
            #[trigger] states@[e]@.comets[c].paths[k]).len() == m,
{
    proof {
        lemma_longest(states@);
    }
    let mut m: usize = 0;
    let mut i: usize = 0;
    assert(states@.take(0) =~= Seq::<GameState>::empty());
    while i < states.len()
        invariant
            i <= states@.len(),
            m == longest_of(states@.take(i as int)),
        decreases states@.len() - i,
    {
        assert(states@.take(i + 1).drop_last() =~= states@.take(i as int));
        let len: usize = longest_in_game(&states[i]);
        if len > m {
            m = len;
        }
        i += 1;
    }
    assert(states@.take(i as int) =~= states@);
    m
}

/// Whose a planet or fleet is, as a player sees it.
#[derive(Clone, Copy, PartialEq, Eq, Structural, Debug)]
pub enum Standing {
    Mine,
    Enemy,
    Neutral,
}

/// How `player` sees something of `owner`.
pub open spec fn seen_as(owner: i64, player: i64) -> Standing {
    if owner == player {
        Standing::Mine
    } else if owner == -1 {
        Standing::Neutral
    } else {
        Standing::Enemy
    }
}

/// How `player` sees something of `owner`.
pub fn standing(owner: i64, player: i64) -> (s: Standing)
    ensures
        s == seen_as(owner, player),
        s == Standing::Mine <==> owner == player,
        s == Standing::Neutral <==> owner != player && owner == -1,
{
    if owner == player {
        Standing::Mine
    } else if owner == NEUTRAL {
        Standing::Neutral
    } else {
        Standing::Enemy
    }
}

/// The place of a row among the planets or among the comets; `Full` where all
/// are taken.
#[derive(Clone, Copy, PartialEq, Eq, Structural, Debug)]
pub enum Slot {
    Planet(usize),
    Comet(usize),
    Full,
}

/// Where one planet goes.
#[derive(Clone, Copy, PartialEq, Eq, Debug)]
pub struct PlaceRow {
    pub slot: Slot,
    pub place: Option<usize>,
    pub comet: Option<(usize, usize)>,
    pub standing: Standing,
}

/// Whether planet `i` counts as a comet: it is listed as one, or follows a path.
pub open spec fn is_comet(g: GameModel, i: int) -> bool {
    g.comet_planet_ids.contains(g.planets[i].id) || comet_of(g.comets, g.planets[i].id, g.comets.len()) is Some
}

/// Comets among the first `n` planets.
pub open spec fn comets_before(g: GameModel, n: nat) -> nat
    decreases n,
{
    if n == 0 {
        0
    } else {
        comets_before(g, (n - 1) as nat) + (if is_comet(g, n - 1) {
            1nat
        } else {
            0
        })
    }
}

pub open spec fn at_most(a: nat, b: nat) -> nat {
    if a < b {
        a
    } else {
        b
    }
}

/// Where planet `i` goes. Planets fill their places in order, and so do comets.
/// Once the places for planets are full, further planets are still described, at
/// the place after the last one.
pub open spec fn row_of(g: GameModel, player: i64, i: int) -> PlaceRow {
    let c = at_most(comets_before(g, i as nat), F_MAX_C as nat);
    let p = at_most((i - comets_before(g, i as nat)) as nat, F_MAX_P as nat);
    let comet = is_comet(g, i);
    let place = if comet {
        F_MAX_P + c
    } else {
        p as int
    };
    PlaceRow {
        slot: if comet {
            if c < F_MAX_C {
                Slot::Comet(c as usize)
            } else {
                Slot::Full
            }
        } else {
            if p < F_MAX_P {
                Slot::Planet(p as usize)
            } else {
                Slot::Full
            }
        },
        place: if place < M_PLACES {
            Some(place as usize)
        } else {
            None
        },
        comet: match comet_of(g.comets, g.planets[i].id, g.comets.len()) {
            Some((a, b)) => Some((a as usize, b as usize)),
            None => None,
        },
        standing: seen_as(g.planets[i].owner, player),
    }
}

/// Where all planets go.
pub open spec fn rows_of(g: GameModel, player: i64) -> Seq<PlaceRow> {
    Seq::new(g.planets.len(), |i: int| row_of(g, player, i))
}

proof fn lemma_comets_before(g: GameModel, n: nat)
    ensures
        comets_before(g, n) <= n,
    decreases n,
{
    if n > 0 {
        lemma_comets_before(g, (n - 1) as nat);
    }
}

/// No two planets get the same slot.
pub proof fn lemma_slots_differ(g: GameModel, player: i64, i: int, j: int)
    requires
        0 <= i < j < g.planets.len(),
        row_of(g, player, i).slot != Slot::Full,
    ensures
        row_of(g, player, i).slot != row_of(g, player, j).slot,
{
    lemma_comets_before(g, i as nat);
    lemma_comets_before(g, j as nat);
    lemma_comets_step(g, (i + 1) as nat, j as nat);
}

/// Planets that have a slot have places of their own.
pub proof fn lemma_places_differ(g: GameModel, player: i64, i: int, j: int)
    requires
        0 <= i < j < g.planets.len(),
        row_of(g, player, i).slot != Slot::Full,
        row_of(g, player, j).slot != Slot::Full,
    ensures
        row_of(g, player, i).place is Some,
        row_of(g, player, j).place is Some,
        row_of(g, player, i).place != row_of(g, player, j).place,
{
    lemma_comets_before(g, i as nat);
    lemma_comets_before(g, j as nat);
    lemma_comets_step(g, (i + 1) as nat, j as nat);
}

proof fn lemma_comets_step(g: GameModel, n: nat, m: nat)
    requires
        n <= m,
    ensures
        comets_before(g, n) <= comets_before(g, m) <= comets_before(g, n) + (m - n),
    decreases m,
{
    if n < m {
        lemma_comets_step(g, n, (m - 1) as nat);
    }
}

/// Comets get the places for comets and planets those for planets, in their order and
/// without gaps: where one has the slot after `m`, another before it has slot `m`. One
/// is left out just where all slots of its kind are taken. A slot is a place, with the
/// comets after the planets.
pub proof fn lemma_slots(g: GameModel, player: i64, i: int, m: usize)
    requires
        0 <= i < g.planets.len(),
    ensures
        ({
            let r = row_of(g, player, i);
            let comet = g.comet_planet_ids.contains(g.planets[i].id) || exists|a: int, b: int|
                #[trigger] follows_path(g.comets, g.planets[i].id, a, b);
            &&& r.slot is Comet ==> comet
            &&& r.slot is Planet ==> !comet
            &&& r.slot matches Slot::Planet(k) ==> k < F_MAX_P && r.place == Some(k)
            &&& r.slot matches Slot::Comet(k) ==> k < F_MAX_C && r.place == Some((F_MAX_P + k) as usize)
            &&& r.slot == Slot::Planet((m + 1) as usize) && m < F_MAX_P ==> exists|j: int|
                0 <= j < i && #[trigger] row_of(g, player, j).slot == Slot::Planet(m)
            &&& r.slot == Slot::Comet((m + 1) as usize) && m < F_MAX_C ==> exists|j: int|
                0 <= j < i && #[trigger] row_of(g, player, j).slot == Slot::Comet(m)
            &&& r.slot == Slot::Full && comet ==> exists|j: int|
                0 <= j < i && #[trigger] row_of(g, player, j).slot == Slot::Comet((F_MAX_C - 1) as usize)
            &&& r.slot == Slot::Full && !comet ==> exists|j: int|
                0 <= j < i && #[trigger] row_of(g, player, j).slot == Slot::Planet((F_MAX_P - 1) as usize)
        }),
{
    let r = row_of(g, player, i);
    lemma_comet_of(g.comets, g.planets[i].id, g.comets.len());
    lemma_comets_before(g, i as nat);
    let c = comets_before(g, i as nat);
    if c > 0 {
        let k = if c > F_MAX_C {
            (F_MAX_C - 1) as nat
        } else {
            (c - 1) as nat
        };
        let j = lemma_comet_at(g, i as nat, k);
        assert(row_of(g, player, j).slot == Slot::Comet(k as usize));
    }
    let p = (i - c) as nat;
    if p > 0 {
        let k = if p > F_MAX_P {
            (F_MAX_P - 1) as nat
        } else {
            (p - 1) as nat
        };
        let j = lemma_planet_at(g, i as nat, k);
        assert(row_of(g, player, j).slot == Slot::Planet(k as usize));
    }
}

proof fn lemma_comet_at(g: GameModel, n: nat, k: nat) -> (j: int)
    requires
        k < comets_before(g, n),
    ensures
        0 <= j < n,
        is_comet(g, j),
        comets_before(g, j as nat) == k,
    decreases n,
{
    if comets_before(g, (n - 1) as nat) > k {
        lemma_comet_at(g, (n - 1) as nat, k)
    } else {
        n - 1
    }
}

proof fn lemma_planet_at(g: GameModel, n: nat, k: nat) -> (j: int)
    requires
        k < n - comets_before(g, n),
    ensures
        0 <= j < n,
        !is_comet(g, j),
        j - comets_before(g, j as nat) == k,
    decreases n,
{
    lemma_comets_before(g, (n - 1) as nat);
    if n - 1 - comets_before(g, (n - 1) as nat) > k {
        lemma_planet_at(g, (n - 1) as nat, k)
    } else {
        n - 1
    }
}

/// Finds the place of each planet.
pub fn place_rows(g: &GameState, player: i64) -> (r: Vec<PlaceRow>)
    ensures
        r@ == rows_of(g@, player),
{
    let mut r: Vec<PlaceRow> = Vec::new();
    let mut p: usize = 0;
    let mut c: usize = 0;
    let mut i: usize = 0;
    while i < g.planets.len()
        invariant
            i <= g.planets@.len(),
            r@ =~= rows_of(g@, player).take(i as int),
            c == at_most(comets_before(g@, i as nat), F_MAX_C as nat),
            p == at_most((i - comets_before(g@, i as nat)) as nat, F_MAX_P as nat),
        decreases g.planets@.len() - i,
    {
        let planet = g.planets[i];
        let comet = find_comet(g, planet.id);
        let is_c = has_id(&g.comet_planet_ids, planet.id) || comet.is_some();
        proof {
            lemma_comets_before(g@, i as nat);
            assert(is_c == is_comet(g@, i as int));
        }
        let at: usize = if is_c {
            F_MAX_P + c
        } else {
            p
        };
        let place: Option<usize> = if at < M_PLACES {
            Some(at)
        } else {
            None
        };
        let slot = if is_c {
            if c < F_MAX_C {
                Slot::Comet(c)
            } else {
                Slot::Full
            }
        } else {
            if p < F_MAX_P {
                Slot::Planet(p)
            } else {
                Slot::Full
            }
        };
        r.push(PlaceRow { slot, place, comet, standing: standing(planet.owner, player) });
        assert(r@[i as int] == row_of(g@, player, i as int));
        if is_c {
            if c < F_MAX_C {
                c += 1;
            }
        } else if p < F_MAX_P {
            p += 1;
        }
        i += 1;
    }
    assert(r@ =~= rows_of(g@, player));
    r
}

/// How `player` sees the fleets that get a place: the first ones.
pub open spec fn fleet_standings(g: GameModel, player: i64) -> Seq<Standing> {
    Seq::new(at_most(g.fleets.len(), F_MAX_F as nat), |i: int| seen_as(g.fleets[i].owner, player))
}

/// How `player` sees the fleets that get a place.
pub fn fleet_rows(g: &GameState, player: i64) -> (r: Vec<Standing>)
    ensures
        r@ == fleet_standings(g@, player),
        r@.len() <= g@.fleets.len(),
        r@.len() == g@.fleets.len() || r@.len() == F_MAX_F,
        forall|j: int| 0 <= j < r@.len() ==> ((#[trigger] r@[j]) == Standing::Mine <==> g@.fleets[j].owner == player),
{
    let mut r: Vec<Standing> = Vec::new();
    while r.len() < g.fleets.len() && r.len() < F_MAX_F
        invariant
            r@.len() <= g.fleets@.len(),
            r@.len() <= F_MAX_F,
            r@ =~= fleet_standings(g@, player).take(r@.len() as int),
        decreases F_MAX_F - r@.len(),
    {
        let i: usize = r.len();
        r.push(standing(g.fleets[i].owner, player));
    }
    assert(r@ =~= fleet_standings(g@, player));
    r
}

/// Steps until comets spawn next; 50 once none will.
pub open spec fn spawn_countdown(cur_step: int) -> int {
    if cur_step <= 50 {
        50 - cur_step
    } else if cur_step <= 150 {
        150 - cur_step
    } else if cur_step <= 250 {
        250 - cur_step
    } else if cur_step <= 350 {
        350 - cur_step
    } else if cur_step <= 450 {
        450 - cur_step
    } else {
        50
    }
}

/// The countdown stands at 1 just where comets spawn in the coming tick.
pub proof fn lemma_spawn_countdown(cur_step: i64)
    ensures
        spawn_countdown(cur_step as int) == 1 <==> crate::engine::spawn_due(cur_step),
{
}

/// The countdown runs to the next tick in which comets spawn: they spawn in the tick
/// that it leads to, and in none before. Once they spawn no more, it stands at 50.
pub proof fn lemma_countdown_runs(cur_step: i64, t: i64)
    ensures
        i64::MIN < cur_step <= 450 ==> crate::engine::spawn_due((cur_step + spawn_countdown(cur_step as int) - 1) as i64)
            && spawn_countdown(cur_step as int) >= 0,
        i64::MIN < cur_step <= 450 && cur_step <= t < cur_step + spawn_countdown(cur_step as int)
            ==> !crate::engine::spawn_due((t - 1) as i64),
        cur_step > 450 ==> spawn_countdown(cur_step as int) == 50 && !crate::engine::spawn_due(cur_step),
{
}

/// A planet adds what it produces to the production of its owner, and to that of the
/// rivals of all others; nobody's planet adds to neither.
pub proof fn lemma_production_more(planets: Seq<Planet>, p: Planet, player: i64)
    requires
        player >= 0,
    ensures
        production_of(Seq::empty(), player) == 0,
        rival_production(Seq::empty(), player) == 0,
        p.owner == player ==> production_of(planets.push(p), player) == production_of(planets, player) + p.production
            && rival_production(planets.push(p), player) == rival_production(planets, player),
        p.owner != player && p.owner >= 0 ==> production_of(planets.push(p), player) == production_of(planets, player)
            && rival_production(planets.push(p), player) == rival_production(planets, player) + p.production,
        p.owner < 0 ==> production_of(planets.push(p), player) == production_of(planets, player) && rival_production(
            planets.push(p),
            player,
        ) == rival_production(planets, player),
{
    assert(planets.push(p).drop_last() =~= planets);
}

/// No rival among the first `n` players has more ships than the strongest one, and one
/// has as many, unless none has any.
pub proof fn lemma_best_rival(g: GameModel, player: int, n: nat)
    ensures
        best_rival(g, player, n) >= 0,
        forall|q: int| 0 <= q < n && q != player ==> #[trigger] crate::tick::score(g, q) <= best_rival(g, player, n),
        best_rival(g, player, n) > 0 ==> exists|q: int|
            0 <= q < n && q != player && #[trigger] crate::tick::score(g, q) == best_rival(g, player, n),
    decreases n,
{
    if n > 0 {
        lemma_best_rival(g, player, (n - 1) as nat);
    }
}

/// What the planets of `player` produce.
pub open spec fn production_of(planets: Seq<Planet>, player: i64) -> int
    decreases planets.len(),
{
    if planets.len() == 0 {
        0
    } else {
        production_of(planets.drop_last(), player) + (if planets.last().owner == player {
            planets.last().production as int
        } else {
            0
        })
    }
}

/// What the planets of all players but `player` produce.
pub open spec fn rival_production(planets: Seq<Planet>, player: i64) -> int
    decreases planets.len(),
{
    if planets.len() == 0 {
        0
    } else {
        rival_production(planets.drop_last(), player) + (if planets.last().owner != player && planets.last().owner
            >= 0 {
            planets.last().production as int
        } else {
            0
        })
    }
}

/// The most ships that one of the players 0 to `n - 1`, other than `player`, has.
pub open spec fn best_rival(g: GameModel, player: int, n: nat) -> int
    decreases n,
{
    if n == 0 {
        0
    } else {
        let front = best_rival(g, player, (n - 1) as nat);
        if n - 1 != player && crate::tick::score(g, n - 1) > front {
            crate::tick::score(g, n - 1)
        } else {
            front
        }
    }
}

/// The counts that describe the game as a whole.
#[derive(Clone, Copy, PartialEq, Eq, Structural, Debug)]
pub struct GlobalCounts {
    pub players: i64,
    pub mine: i64,
    pub max_opp: i64,
    pub countdown: i64,
    pub mine_prod: i64,
    pub enemy_prod: i64,
}

/// The counts of the game for `player` before the tick of `cur_step`.
pub open spec fn counts_of(g: GameModel, player: i64, cur_step: i64) -> GlobalCounts {
    GlobalCounts {
        players: table_size(g) as i64,
        mine: crate::tick::score(g, player as int) as i64,
        max_opp: best_rival(g, player as int, 4) as i64,
        countdown: spawn_countdown(cur_step as int) as i64,
        mine_prod: production_of(g.planets, player) as i64,
        enemy_prod: rival_production(g.planets, player) as i64,
    }
}

proof fn lemma_production_of(planets: Seq<Planet>, player: i64)
    requires
        forall|i: int| 0 <= i < planets.len() ==> (#[trigger] planets[i]).production >= 0,
        player >= 0,
    ensures
        0 <= production_of(planets, player),
        0 <= rival_production(planets, player),
        production_of(planets, player) + rival_production(planets, player) <= crate::state::held_production(planets),
    decreases planets.len(),
{
    if planets.len() > 0 {
        let front = planets.drop_last();
        assert forall|i: int| 0 <= i < front.len() implies (#[trigger] front[i]).production >= 0 by {
            assert(front[i] == planets[i]);
        }
        lemma_production_of(front, player);
        assert(planets[planets.len() - 1].production >= 0);
    }
}

proof fn lemma_production_part(planets: Seq<Planet>, n: int)
    requires
        forall|i: int| 0 <= i < planets.len() ==> (#[trigger] planets[i]).production >= 0,
        0 <= n <= planets.len(),
    ensures
        crate::state::held_production(planets.take(n)) <= crate::state::held_production(planets),
    decreases planets.len() - n,
{
    if n < planets.len() {
        lemma_production_part(planets, n + 1);
        assert(planets.take(n + 1).drop_last() =~= planets.take(n));
        assert(planets.take(n + 1).last() == planets[n]);
    } else {
        assert(planets.take(n) =~= planets);
    }
}

/// Counts the game for `player` before the tick of `cur_step`.
pub fn global_counts(g: &GameState, player: i64, cur_step: i64) -> (r: GlobalCounts)
    requires
        g@.solvent(),
        g@.ships_in_play() <= i64::MAX,
        crate::state::held_production(g@.planets) <= i64::MAX,
        0 <= player < 4,
        50 - cur_step <= i64::MAX,
    ensures
        r == counts_of(g@, player, cur_step),
        r.mine == crate::tick::score(g@, player as int),
        r.max_opp >= 0,
        forall|q: int| 0 <= q < 4 && q != player ==> #[trigger] crate::tick::score(g@, q) <= r.max_opp,
        r.max_opp > 0 ==> exists|q: int|
            0 <= q < 4 && q != player && #[trigger] crate::tick::score(g@, q) == r.max_opp,
        r.mine_prod == production_of(g@.planets, player),
        r.enemy_prod == rival_production(g@.planets, player),
        r.players == 4 <==> (exists|i: int| 0 <= i < g@.planets.len() && (#[trigger] g@.planets[i]).owner >= 2) || (exists|
            i: int,
        |
            0 <= i < g@.fleets.len() && (#[trigger] g@.fleets[i]).owner >= 2),
        r.players == 2 || r.players == 4,
{
    proof {
        lemma_table(g@);
        lemma_best_rival(g@, player as int, 4);
        lemma_production_of(g@.planets, player);
        crate::tick::lemma_score(g@, player as int);
        assert forall|q: int| 0 <= q < 4 implies 0 <= #[trigger] crate::tick::score(g@, q) <= i64::MAX by {
            crate::tick::lemma_score(g@, q);
        }
    }
    let mut max_opp: i64 = 0;
    let mut q: i64 = 0;
    while q < 4
        invariant
            0 <= q <= 4,
            g@.solvent(),
            g@.ships_in_play() <= i64::MAX,
            max_opp == best_rival(g@, player as int, q as nat),
        decreases 4 - q,
    {
        let s: i64 = crate::tick::score_of(g, q as usize);
        if q != player && s > max_opp {
            max_opp = s;
        }
        q += 1;
    }
    let mut mine_prod: i64 = 0;
    let mut enemy_prod: i64 = 0;
    let mut i: usize = 0;
    assert(g@.planets.take(0) =~= Seq::<Planet>::empty());
    while i < g.planets.len()
        invariant
            i <= g.planets@.len(),
            g@.solvent(),
            player >= 0,
            crate::state::held_production(g@.planets) <= i64::MAX,
            mine_prod == production_of(g@.planets.take(i as int), player),
            enemy_prod == rival_production(g@.planets.take(i as int), player),
            mine_prod >= 0,
            enemy_prod >= 0,
        decreases g.planets@.len() - i,
    {
        let p = g.planets[i];
        let ghost next = g@.planets.take(i + 1);
        proof {
            assert(next.drop_last() =~= g@.planets.take(i as int));
            assert(next.last() == p);
            assert forall|k: int| 0 <= k < next.len() implies (#[trigger] next[k]).production >= 0 by {
                assert(next[k] == g@.planets[k]);
            }
            lemma_production_of(next, player);
            lemma_production_part(g@.planets, i + 1);
        }
        if p.owner == player {
            mine_prod = mine_prod + p.production;
        } else if p.owner >= 0 {
            enemy_prod = enemy_prod + p.production;
        }
        i += 1;
    }
    assert(g@.planets.take(i as int) =~= g@.planets);
    let countdown: i64 = if cur_step <= 50 {
        50 - cur_step
    } else if cur_step <= 150 {
        150 - cur_step
    } else if cur_step <= 250 {
        250 - cur_step
    } else if cur_step <= 350 {
        350 - cur_step
    } else if cur_step <= 450 {
        450 - cur_step
    } else {
        50
    };
    GlobalCounts {
        players: table(g),
        mine: crate::tick::score_of(g, player as usize),
        max_opp,
        countdown,
        mine_prod,
        enemy_prod,
    }
}

} // verus!
