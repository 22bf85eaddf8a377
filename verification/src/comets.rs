//! The comets of a game, drawn from its seed and the step at which they spawn.
//!
//! `CometGen` makes the draws; the caller computes the orbits and says which of
//! them fit.

use crate::double::Point;
use crate::pyrandom::PyRandom;
use crate::state::{has_id, Planet};
use vstd::prelude::*;

verus! {

/// Tries at an orbit.
pub const ORBIT_TRIES: i64 = 300;

/// The decimal digits of `n`, in ASCII.
pub open spec fn decimal(n: nat) -> Seq<u8>
    decreases n,
{
    if n < 10 {
        seq![(48 + n) as u8]
    } else {
        decimal(n / 10).push((48 + n % 10) as u8)
    }
}

/// The ASCII text `orbit_wars-comet-`.
pub open spec fn comet_prefix() -> Seq<u8> {
    seq![111u8, 114, 98, 105, 116, 95, 119, 97, 114, 115, 45, 99, 111, 109, 101, 116, 45]
}

/// The text that seeds the comets of `step` in the game of `seed`:
/// `orbit_wars-comet-`, the seed, a dash, and the step.
pub open spec fn comet_text(seed: nat, step: nat) -> Seq<u8> {
    comet_prefix() + decimal(seed) + seq![45u8] + decimal(step)
}

/// What a row of decimal digits in ASCII stands for.
pub open spec fn number_of(digits: Seq<u8>) -> int
    decreases digits.len(),
{
    if digits.len() == 0 {
        0
    } else {
        10 * number_of(digits.drop_last()) + (digits.last() - 48)
    }
}

/// The text that seeds comets gives, after seventeen letters, the seed in digits, a
/// dash, and the step in digits.
pub proof fn lemma_comet_text(seed: nat, step: nat)
    ensures
        ({
            let text = comet_text(seed, step);
            let m = 17 + decimal(seed).len() as int;
            &&& text.take(17) == comet_prefix()
            &&& number_of(text.subrange(17, m)) == seed
            &&& text[m] == 45
            &&& number_of(text.skip(m + 1)) == step
        }),
{
    let text = comet_text(seed, step);
    let m = 17 + decimal(seed).len() as int;
    lemma_decimal(seed);
    lemma_decimal(step);
    assert(comet_prefix().len() == 17);
    assert(text.take(17) =~= comet_prefix());
    assert(text.subrange(17, m) =~= decimal(seed));
    assert(text.skip(m + 1) =~= decimal(step));
}

/// The digits of a number stand for it; they are digits, and only 0 starts with 0.
pub proof fn lemma_decimal(n: nat)
    ensures
        number_of(decimal(n)) == n,
        decimal(n).len() > 0,
        forall|i: int| 0 <= i < decimal(n).len() ==> 48 <= #[trigger] decimal(n)[i] <= 57,
        decimal(n)[0] == 48 ==> n == 0,
    decreases n,
{
    let d = decimal(n);
    if n < 10 {
        assert(d.drop_last() =~= Seq::<u8>::empty());
        assert(number_of(d.drop_last()) == 0);
        assert(d.last() == 48 + n);
    } else {
        lemma_decimal(n / 10);
        let front = decimal(n / 10);
        assert(d.drop_last() =~= front);
        assert(d[0] == front[0]);
        assert(d.last() == 48 + n % 10);
        assert(number_of(d) == 10 * number_of(front) + (d.last() - 48));
        assert forall|i: int| 0 <= i < d.len() implies 48 <= #[trigger] d[i] <= 57 by {
            if i < front.len() {
                assert(d[i] == front[i]);
            }
        }
    }
}

/// The text of a step starts with the words that it is for.
pub proof fn lemma_comet_prefix(i: int)
    requires
        0 <= i < "orbit_wars-comet-"@.len(),
    ensures
        comet_prefix().len() == "orbit_wars-comet-"@.len(),
        comet_prefix()[i] as char == "orbit_wars-comet-"@[i],
{
    reveal_strlit("orbit_wars-comet-");
    assert("orbit_wars-comet-"@.len() == 17);
}

fn push_decimal(out: &mut Vec<u8>, n: u64)
    ensures
        final(out)@ == old(out)@ + decimal(n as nat),
    decreases n,
{
    let ghost start = out@;
    if n >= 10 {
        push_decimal(out, n / 10);
        out.push(48 + (n % 10) as u8);
    } else {
        out.push(48 + n as u8);
    }
    assert(out@ =~= start + decimal(n as nat));
}

/// Seeds the draws for the comets of `step` in the game of `seed`.
pub fn comet_rng(seed: u64, step: u64) -> (r: PyRandom)
    ensures
        exists|key: Seq<u32>| #[trigger]
            crate::pyrandom::is_key_of(
                key,
                crate::pyrandom::be_value(
                    comet_text(seed as nat, step as nat) + crate::pyrandom::sha512_digest(
                        comet_text(seed as nat, step as nat),
                    ),
                ),
            ) && r.seeded_with(key),
{
    let mut text: Vec<u8> = vec![111u8, 114, 98, 105, 116, 95, 119, 97, 114, 115, 45, 99, 111, 109, 101, 116, 45];
    assert(text@ =~= comet_prefix());
    push_decimal(&mut text, seed);
    text.push(45);
    assert(text@ =~= comet_prefix() + decimal(seed as nat) + seq![45u8]);
    push_decimal(&mut text, step);
    assert(text@ =~= comet_text(seed as nat, step as nat));
    PyRandom::from_bytes(text.as_slice())
}

/// The last digit of a number tells it apart from others with the same rest, so
/// different numbers have different digits.
pub proof fn lemma_decimal_unique(a: nat, b: nat)
    requires
        decimal(a) == decimal(b),
    ensures
        a == b,
    decreases a,
{
    let (x, y) = (decimal(a), decimal(b));
    lemma_decimal_len(a);
    lemma_decimal_len(b);
    assert(x.last() == y.last());
    if a >= 10 {
        assert(x.drop_last() =~= decimal(a / 10));
        lemma_decimal_len(a / 10);
        if b >= 10 {
            assert(y.drop_last() =~= decimal(b / 10));
            lemma_decimal_unique(a / 10, b / 10);
        }
    } else if b >= 10 {
        assert(y.drop_last() =~= decimal(b / 10));
        lemma_decimal_len(b / 10);
    }
}

proof fn lemma_decimal_len(n: nat)
    ensures
        decimal(n).len() >= 1,
        n >= 10 ==> decimal(n).len() >= 2,
        forall|i: int| 0 <= i < decimal(n).len() ==> 48 <= #[trigger] decimal(n)[i] <= 57,
    decreases n,
{
    if n >= 10 {
        lemma_decimal_len(n / 10);
        let d = decimal(n / 10);
        assert forall|i: int| 0 <= i < decimal(n).len() implies 48 <= #[trigger] decimal(n)[i] <= 57 by {
            if i < d.len() {
                assert(decimal(n)[i] == d[i]);
            }
        }
    }
}

/// Different games or steps have different texts.
pub proof fn lemma_comet_text_unique(seed: nat, step: nat, seed2: nat, step2: nat)
    requires
        comet_text(seed, step) == comet_text(seed2, step2),
    ensures
        seed == seed2,
        step == step2,
{
    let p = comet_prefix();
    let (s, t) = (decimal(seed), decimal(step));
    let (s2, t2) = (decimal(seed2), decimal(step2));
    let x = comet_text(seed, step);
    lemma_decimal_len(seed);
    lemma_decimal_len(seed2);
    // The dash is the first character after the prefix that is no digit.
    assert(x[(p.len() + s.len()) as int] == 45);
    assert(x[(p.len() + s2.len()) as int] == 45);
    if s.len() < s2.len() {
        assert(x[(p.len() + s.len()) as int] == s2[s.len() as int]);
    }
    if s2.len() < s.len() {
        assert(x[(p.len() + s2.len()) as int] == s[s2.len() as int]);
    }
    assert(s =~= x.subrange(p.len() as int, (p.len() + s.len()) as int));
    assert(s2 =~= x.subrange(p.len() as int, (p.len() + s.len()) as int));
    assert(t =~= x.skip((p.len() + s.len() + 1) as int));
    assert(t2 =~= x.skip((p.len() + s.len() + 1) as int));
    lemma_decimal_unique(seed, seed2);
    lemma_decimal_unique(step, step2);
}

/// Draws for comets.
pub struct CometGen {
    pub rng: PyRandom,
    pub tries: i64,
}

impl CometGen {
    pub open spec fn valid(self) -> bool {
        0 <= self.tries <= ORBIT_TRIES
    }

    /// Starts the draws with `rng`.
    pub fn new(rng: PyRandom) -> (c: CometGen)
        ensures
            c.valid(),
            c.rng == rng,
            c.tries == 0,
    {
        CometGen { rng, tries: 0 }
    }

    /// Starts a try: draws the numbers for the eccentricity and for the size of
    /// the orbit. `None` once all tries are used up.
    pub fn next_try(&mut self) -> (r: Option<(u64, u64)>)
        requires
            old(self).valid(),
        ensures
            final(self).valid(),
            match r {
                Some((e, a)) => {
                    &&& old(self).tries < ORBIT_TRIES
                    &&& final(self).tries == old(self).tries + 1
                    &&& e == old(self).rng.fraction()
                    &&& exists|mid: PyRandom|
                        {
                            &&& #[trigger] mid.follows(old(self).rng, 2)
                            &&& a == mid.fraction()
                            &&& final(self).rng.follows(mid, 2)
                        }
                },
                None => old(self).tries == ORBIT_TRIES && *final(self) == *old(self),
            },
    {
        if self.tries >= ORBIT_TRIES {
            return None;
        }
        self.tries = self.tries + 1;
        let ghost begin = self.rng;
        let e: u64 = self.rng.random();
        let ghost mid = self.rng;
        let a: u64 = self.rng.random();
        assert(mid.follows(begin, 2));
        Some((e, a))
    }

    /// Draws the number for the tilt of the orbit.
    pub fn draw_tilt(&mut self) -> (u: u64)
        requires
            old(self).valid(),
        ensures
            final(self).valid(),
            final(self).tries == old(self).tries,
            u == old(self).rng.fraction(),
            final(self).rng.follows(old(self).rng, 2),
    {
        self.rng.random()
    }

    /// Draws the ships on the comets: the smallest of four draws from 1 to 99.
    /// `None` says that a draw gave no answer.
    #[verifier::spinoff_prover]
    #[verifier::rlimit(60)]
    pub fn draw_ships(&mut self) -> (r: Option<i64>)
        requires
            old(self).valid(),
        ensures
            final(self).valid(),
            final(self).tries == old(self).tries,
            r matches Some(ships) ==> 1 <= ships <= 99 && smallest_of_four(old(self).rng, final(self).rng, ships),
            r is None ==> some_draw_fails(old(self).rng, final(self).rng),
            r is Some ==> exists|k: nat| k >= 4 && #[trigger] final(self).rng.follows(old(self).rng, k),
            r matches Some(ships) ==> forall|next: PyRandom, v: i64|
                v <= 99 && #[trigger] old(self).rng.draws_int(1, 99, next, Some(v)) ==> ships <= v,
    {
        let ghost r0 = self.rng;
        let mut least: i64 = 99;
        match self.rng.randint(1, 99) {
            Some(a) => {
                let ghost r1 = self.rng;
                match self.rng.randint(1, 99) {
                    Some(b) => {
                        let ghost r2 = self.rng;
                        match self.rng.randint(1, 99) {
                            Some(c) => {
                                let ghost r3 = self.rng;
                                match self.rng.randint(1, 99) {
                                    Some(d) => {
                                        if a < least {
                                            least = a;
                                        }
                                        if b < least {
                                            least = b;
                                        }
                                        if c < least {
                                            least = c;
                                        }
                                        if d < least {
                                            least = d;
                                        }
                                        assert(four_draws(r0, r1, r2, r3, self.rng, a, b, c, d));
                                        proof {
                                            lemma_four_draws(r0, r1, r2, r3, self.rng, a, b, c, d);
                                            assert forall|next: PyRandom, v: i64|
                                                v <= 99 && #[trigger] r0.draws_int(1, 99, next, Some(v)) implies a
                                                == v by {
                                                crate::pyrandom::lemma_one_draw(r0, 1, 99, r1, a, next, v);
                                            }
                                        }
                                        Some(least)
                                    },
                                    None => {
                                        assert(draws_then_fails(seq![r0, r1, r2, r3], self.rng));
                                        None
                                    },
                                }
                            },
                            None => {
                                assert(draws_then_fails(seq![r0, r1, r2], self.rng));
                                None
                            },
                        }
                    },
                    None => {
                        assert(draws_then_fails(seq![r0, r1], self.rng));
                        None
                    },
                }
            },
            None => {
                assert(draws_then_fails(seq![r0], self.rng));
                None
            },
        }
    }
}

/// Four draws from 1 to 99, one after the other, give `a`, `b`, `c` and `d`.
pub open spec fn four_draws(
    r0: PyRandom,
    r1: PyRandom,
    r2: PyRandom,
    r3: PyRandom,
    r4: PyRandom,
    a: i64,
    b: i64,
    c: i64,
    d: i64,
) -> bool {
    &&& r0.draws_int(1, 99, r1, Some(a))
    &&& r1.draws_int(1, 99, r2, Some(b))
    &&& r2.draws_int(1, 99, r3, Some(c))
    &&& r3.draws_int(1, 99, r4, Some(d))
}

/// Four draws take four words at least.
pub proof fn lemma_four_draws(
    r0: PyRandom,
    r1: PyRandom,
    r2: PyRandom,
    r3: PyRandom,
    r4: PyRandom,
    a: i64,
    b: i64,
    c: i64,
    d: i64,
)
    requires
        four_draws(r0, r1, r2, r3, r4, a, b, c, d),
    ensures
        exists|k: nat| k >= 4 && #[trigger] r4.follows(r0, k),
{
    crate::pyrandom::lemma_draw_takes(r0, 1, 99, r1, a);
    crate::pyrandom::lemma_draw_takes(r1, 1, 99, r2, b);
    crate::pyrandom::lemma_draw_takes(r2, 1, 99, r3, c);
    crate::pyrandom::lemma_draw_takes(r3, 1, 99, r4, d);
    let k1 = choose|k: nat| k >= 1 && #[trigger] r1.follows(r0, k);
    let k2 = choose|k: nat| k >= 1 && #[trigger] r2.follows(r1, k);
    let k3 = choose|k: nat| k >= 1 && #[trigger] r3.follows(r2, k);
    let k4 = choose|k: nat| k >= 1 && #[trigger] r4.follows(r3, k);
    crate::pyrandom::lemma_draws_take(r0, r1, r2, k1, k2);
    crate::pyrandom::lemma_draws_take(r0, r2, r3, k1 + k2, k3);
    crate::pyrandom::lemma_draws_take(r0, r3, r4, k1 + k2 + k3, k4);
}

/// `least` is the smallest of four draws from 1 to 99, which lead from `begin`
/// to `end`.
pub open spec fn smallest_of_four(begin: PyRandom, end: PyRandom, least: i64) -> bool {
    exists|r1: PyRandom, r2: PyRandom, r3: PyRandom, a: i64, b: i64, c: i64, d: i64|
        {
            &&& #[trigger] four_draws(begin, r1, r2, r3, end, a, b, c, d)
            &&& least <= a && least <= b && least <= c && least <= d
            &&& least == a || least == b || least == c || least == d
        }
}

/// Each state leads to the next one by a draw from 1 to 99, and the draw from the
/// last one gives no answer and leads to `end`.
pub open spec fn draws_then_fails(states: Seq<PyRandom>, end: PyRandom) -> bool {
    &&& states.len() > 0
    &&& forall|i: int|
        0 <= i < states.len() - 1 ==> exists|v: i64| (#[trigger] states[i]).draws_int(1, 99, states[i + 1], Some(v))
    &&& states.last().draws_int(1, 99, end, None)
}

/// One of up to four draws from 1 to 99 that start at `begin` gives no answer.
pub open spec fn some_draw_fails(begin: PyRandom, end: PyRandom) -> bool {
    exists|states: Seq<PyRandom>| #[trigger]
        draws_then_fails(states, end) && states.len() <= 4 && states[0] == begin
}

/// The first of the points that is on the board.
pub open spec fn first_on_board(points: Seq<Point>, n: nat) -> Option<int>
    decreases n,
{
    if n == 0 {
        None
    } else {
        match first_on_board(points, (n - 1) as nat) {
            Some(i) => Some(i),
            None => if points[n - 1].within_board() {
                Some(n - 1)
            } else {
                None
            },
        }
    }
}

/// The last of the first `n` points that is on the board.
pub open spec fn last_on_board(points: Seq<Point>, n: nat) -> Option<int>
    decreases n,
{
    if n == 0 {
        None
    } else if points[n - 1].within_board() {
        Some(n - 1)
    } else {
        last_on_board(points, (n - 1) as nat)
    }
}

/// The part of the path from its first to its last point on the board, if it has
/// 5 to 40 points.
pub open spec fn visible_part(points: Seq<Point>) -> Option<Seq<Point>> {
    match (first_on_board(points, points.len()), last_on_board(points, points.len())) {
        (Some(a), Some(b)) => if 5 <= b - a + 1 <= 40 {
            Some(points.subrange(a, b + 1))
        } else {
            None
        },
        _ => None,
    }
}

/// Points `a` and `b` are the first and the last one on the board.
pub open spec fn spans(points: Seq<Point>, a: int, b: int) -> bool {
    &&& 0 <= a <= b < points.len()
    &&& points[a].within_board()
    &&& points[b].within_board()
    &&& forall|i: int| 0 <= i < points.len() && (#[trigger] points[i]).within_board() ==> a <= i <= b
}

proof fn lemma_ends(points: Seq<Point>, n: nat)
    ensures
        match first_on_board(points, n) {
            Some(a) => 0 <= a < n && points[a].within_board() && forall|i: int|
                0 <= i < a ==> !(#[trigger] points[i]).within_board(),
            None => forall|i: int| 0 <= i < n ==> !(#[trigger] points[i]).within_board(),
        },
        match last_on_board(points, n) {
            Some(b) => 0 <= b < n && points[b].within_board() && forall|i: int|
                b < i < n ==> !(#[trigger] points[i]).within_board(),
            None => forall|i: int| 0 <= i < n ==> !(#[trigger] points[i]).within_board(),
        },
    decreases n,
{
    if n > 0 {
        lemma_ends(points, (n - 1) as nat);
    }
}

/// The visible part goes from the first to the last point on the board. There is none
/// where no point is on the board, or where it would have fewer than 5 or more than 40
/// points.
pub proof fn lemma_visible(points: Seq<Point>)
    ensures
        match visible_part(points) {
            Some(v) => 5 <= v.len() <= 40 && exists|a: int, b: int| #[trigger]
                spans(points, a, b) && v == points.subrange(a, b + 1),
            None => forall|a: int, b: int| #[trigger] spans(points, a, b) ==> b - a + 1 < 5 || b - a + 1 > 40,
        },
{
    lemma_ends(points, points.len());
    let first = first_on_board(points, points.len());
    let last = last_on_board(points, points.len());
    if let Some(a) = first {
        assert(points[a].within_board());
        let b = last->0;
        assert forall|i: int| 0 <= i < points.len() && (#[trigger] points[i]).within_board() implies a <= i <= b by {}
        assert(spans(points, a, b));
        assert forall|c: int, d: int| #[trigger] spans(points, c, d) implies c == a && d == b by {
            assert(points[c].within_board() && points[d].within_board());
        }
    } else {
        assert forall|c: int, d: int| !#[trigger] spans(points, c, d) by {
            if spans(points, c, d) {
                assert(points[c].within_board());
            }
        }
    }
}

/// The part of the path that is visible, if it is neither too short nor too
/// long.
pub fn visible_path(points: &Vec<Point>) -> (r: Option<Vec<Point>>)
    ensures
        match r {
            Some(v) => visible_part(points@) == Some(v@),
            None => visible_part(points@) is None,
        },
        match r {
            Some(v) => 5 <= v@.len() <= 40 && exists|a: int, b: int| #[trigger]
                spans(points@, a, b) && v@ == points@.subrange(a, b + 1),
            None => forall|a: int, b: int| #[trigger] spans(points@, a, b) ==> b - a + 1 < 5 || b - a + 1 > 40,
        },
{
    proof {
        lemma_visible(points@);
    }
    let mut first: Option<usize> = None;
    let mut last: usize = 0;
    let mut i: usize = 0;
    while i < points.len()
        invariant
            i <= points@.len(),
            match first {
                Some(a) => a <= last < i && first_on_board(points@, i as nat) == Some(a as int) && last_on_board(
                    points@,
                    i as nat,
                ) == Some(last as int),
                None => first_on_board(points@, i as nat) is None && last_on_board(points@, i as nat) is None,
            },
        decreases points@.len() - i,
    {
        if points[i].on_board() {
            if first.is_none() {
                first = Some(i);
            }
            last = i;
        }
        i += 1;
    }
    match first {
        Some(a) => {
            let len: usize = last - a + 1;
            if len < 5 || len > 40 {
                return None;
            }
            let total: usize = points.len();
            let mut v: Vec<Point> = Vec::new();
            let mut k: usize = a;
            while k <= last
                invariant
                    a <= k <= last + 1,
                    last < total,
                    total == points@.len(),
                    v@ =~= points@.subrange(a as int, k as int),
                decreases last + 1 - k,
            {
                v.push(points[k]);
                k += 1;
            }
            Some(v)
        },
        None => None,
    }
}

/// The path in its four symmetric places. `mirrored[k]` is point `k` with both
/// coordinates mirrored on the board.
pub open spec fn symmetric(points: Seq<Point>, mirrored: Seq<Point>) -> Seq<Seq<Point>> {
    let n = points.len();
    seq![
        Seq::new(n, |k: int| Point { x: points[k].y, y: points[k].x }),
        Seq::new(n, |k: int| Point { x: mirrored[k].x, y: points[k].y }),
        Seq::new(n, |k: int| Point { x: points[k].x, y: mirrored[k].y }),
        Seq::new(n, |k: int| Point { x: mirrored[k].y, y: mirrored[k].x }),
    ]
}

/// The points with their coordinates swapped.
pub open spec fn swapped(points: Seq<Point>) -> Seq<Point> {
    Seq::new(points.len(), |k: int| Point { x: points[k].y, y: points[k].x })
}

/// The four places are symmetric: the paths of the mirrored points are the same four in
/// reverse; those of the swapped points are the same four with their points swapped, and
/// with the second and the third exchanged; and the first is the path with its points
/// swapped, while the second keeps the heights of the points and the third their
/// breadths.
pub proof fn lemma_symmetric(points: Seq<Point>, mirrored: Seq<Point>, k: int)
    requires
        mirrored.len() == points.len(),
        0 <= k < points.len(),
    ensures
        ({
            let s = symmetric(points, mirrored);
            let m = symmetric(mirrored, points);
            let w = symmetric(swapped(points), swapped(mirrored));
            &&& s.len() == 4
            &&& m[0] == s[3] && m[1] == s[2] && m[2] == s[1] && m[3] == s[0]
            &&& w[0] == swapped(s[0]) && w[1] == swapped(s[2]) && w[2] == swapped(s[1]) && w[3] == swapped(s[3])
            &&& s[0] == swapped(points)
            &&& s[1].len() == points.len() && s[1][k].y == points[k].y && s[1][k].x == mirrored[k].x
            &&& s[2].len() == points.len() && s[2][k].x == points[k].x && s[2][k].y == mirrored[k].y
        }),
{
    let s = symmetric(points, mirrored);
    let m = symmetric(mirrored, points);
    let w = symmetric(swapped(points), swapped(mirrored));
    assert(m[0] =~= s[3] && m[1] =~= s[2] && m[2] =~= s[1] && m[3] =~= s[0]);
    assert(w[0] =~= swapped(s[0]) && w[1] =~= swapped(s[2]) && w[2] =~= swapped(s[1]) && w[3] =~= swapped(s[3]));
    assert(s[0] =~= swapped(points));
}

/// The paths of four comets: the given one in its four symmetric places.
pub fn symmetric_paths(points: &Vec<Point>, mirrored: &Vec<Point>) -> (r: Vec<Vec<Point>>)
    requires
        mirrored@.len() == points@.len(),
    ensures
        crate::state::paths_model(r@) == symmetric(points@, mirrored@),
{
    let mut p0: Vec<Point> = Vec::new();
    let mut p1: Vec<Point> = Vec::new();
    let mut p2: Vec<Point> = Vec::new();
    let mut p3: Vec<Point> = Vec::new();
    let ghost all = symmetric(points@, mirrored@);
    let mut k: usize = 0;
    while k < points.len()
        invariant
            k <= points@.len(),
            mirrored@.len() == points@.len(),
            all == symmetric(points@, mirrored@),
            p0@ =~= all[0].take(k as int),
            p1@ =~= all[1].take(k as int),
            p2@ =~= all[2].take(k as int),
            p3@ =~= all[3].take(k as int),
        decreases points@.len() - k,
    {
        let p = points[k];
        let m = mirrored[k];
        p0.push(Point { x: p.y, y: p.x });
        p1.push(Point { x: m.x, y: p.y });
        p2.push(Point { x: p.x, y: m.y });
        p3.push(Point { x: m.y, y: m.x });
        k += 1;
    }
    assert(p0@ =~= all[0] && p1@ =~= all[1] && p2@ =~= all[2] && p3@ =~= all[3]);
    let r = vec![p0, p1, p2, p3];
    assert(crate::state::paths_model(r@) =~= all);
    r
}

/// The places of the planets that are no comets.
pub open spec fn solid(planets: Seq<Planet>, comet_ids: Seq<i64>) -> Seq<usize>
    decreases planets.len(),
{
    if planets.len() == 0 {
        Seq::empty()
    } else {
        let front = solid(planets.drop_last(), comet_ids);
        if comet_ids.contains(planets.last().id) {
            front
        } else {
            front.push((planets.len() - 1) as usize)
        }
    }
}

/// A planet is in the way of comets just where it is not one itself; the places are in
/// order.
pub proof fn lemma_solid(planets: Seq<Planet>, comet_ids: Seq<i64>)
    requires
        planets.len() <= usize::MAX,
    ensures
        forall|i: usize|
            #[trigger] solid(planets, comet_ids).contains(i) <==> i < planets.len() && !comet_ids.contains(
                planets[i as int].id,
            ),
        forall|j: int, k: int|
            0 <= j < k < solid(planets, comet_ids).len() ==> #[trigger] solid(planets, comet_ids)[j] < #[trigger] solid(
                planets,
                comet_ids,
            )[k],
    decreases planets.len(),
{
    if planets.len() > 0 {
        let before = planets.drop_last();
        let last = (planets.len() - 1) as usize;
        lemma_solid(before, comet_ids);
        let front = solid(before, comet_ids);
        let all = solid(planets, comet_ids);
        assert forall|k: int| 0 <= k < front.len() implies (#[trigger] front[k]) < last by {
            assert(front.contains(front[k]));
        }
        assert forall|i: usize|
            #[trigger] all.contains(i) <==> i < planets.len() && !comet_ids.contains(planets[i as int].id) by {
            if i < last {
                assert(before[i as int] == planets[i as int]);
                assert(front.contains(i) <==> !comet_ids.contains(before[i as int].id));
            }
            if front.contains(i) {
                let k = choose|k: int| 0 <= k < front.len() && front[k] == i;
                assert(all[k] == i);
            }
            if all.contains(i) {
                let k = choose|k: int| 0 <= k < all.len() && all[k] == i;
                if k < front.len() {
                    assert(front[k] == i);
                    assert(front.contains(i));
                }
            }
            if i == last && !comet_ids.contains(planets[last as int].id) {
                assert(all[front.len() as int] == i);
            }
        }
        assert forall|j: int, k: int| 0 <= j < k < all.len() implies #[trigger] all[j] < #[trigger] all[k] by {
            assert(all[j] == front[j]);
            if k < front.len() {
                assert(all[k] == front[k]);
            }
        }
    }
}

/// The places of the planets that comets must keep clear of: those that are no
/// comets themselves.
pub fn obstacles(planets: &Vec<Planet>, comet_ids: &Vec<i64>) -> (r: Vec<usize>)
    ensures
        r@ == solid(planets@, comet_ids@),
        forall|i: usize|
            #[trigger] r@.contains(i) <==> i < planets@.len() && !comet_ids@.contains(planets@[i as int].id),
        forall|j: int, k: int| 0 <= j < k < r@.len() ==> #[trigger] r@[j] < #[trigger] r@[k],
{
    proof {
        assert(planets@.len() == planets.len());
        lemma_solid(planets@, comet_ids@);
    }
    let mut r: Vec<usize> = Vec::new();
    let mut i: usize = 0;
    assert(planets@.take(0) =~= Seq::<Planet>::empty());
    while i < planets.len()
        invariant
            i <= planets@.len(),
            r@ == solid(planets@.take(i as int), comet_ids@),
        decreases planets@.len() - i,
    {
        assert(planets@.take(i + 1).drop_last() =~= planets@.take(i as int));
        if !has_id(comet_ids, planets[i].id) {
            r.push(i);
        }
        i += 1;
    }
    assert(planets@.take(i as int) =~= planets@);
    r
}

} // verus!
