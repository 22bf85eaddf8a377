//! Doubles as bit patterns: what the rules need to carry and compare them.

use vstd::arithmetic::power2::*;
use vstd::prelude::*;

verus! {

/// A double, by its IEEE 754 bit pattern.
#[derive(Clone, Copy, PartialEq, Eq, Structural, Debug)]
pub struct Double {
    pub bits: u64,
}

/// A point of the board.
#[derive(Clone, Copy, PartialEq, Eq, Structural, Debug)]
pub struct Point {
    pub x: Double,
    pub y: Double,
}

/// The bit pattern of 100.0, the side of the board.
pub const BOARD_SIZE: u64 = 0x4059_0000_0000_0000;

impl Double {
    /// The pattern without its sign bit.
    pub open spec fn magnitude(self) -> int {
        self.bits as int % 0x8000_0000_0000_0000
    }

    pub open spec fn negative(self) -> bool {
        self.bits >= 0x8000_0000_0000_0000
    }

    /// The pattern read as a sign and a magnitude. Both zeros have rank 0.
    pub open spec fn rank(self) -> int {
        if self.negative() {
            -self.magnitude()
        } else {
            self.magnitude()
        }
    }

    pub open spec fn nan(self) -> bool {
        self.magnitude() > 0x7ff0_0000_0000_0000
    }

    pub open spec fn finite(self) -> bool {
        self.magnitude() < 0x7ff0_0000_0000_0000
    }

    /// How far the number that a finite pattern stands for is from 0, in units
    /// of 2 to the power -1074.
    pub open spec fn size(self) -> int {
        let exponent = self.magnitude() / 0x10_0000_0000_0000;
        let fraction = self.magnitude() % 0x10_0000_0000_0000;
        if exponent == 0 {
            fraction
        } else {
            (0x10_0000_0000_0000 + fraction) * pow2((exponent - 1) as nat)
        }
    }

    /// The number that a finite pattern stands for, in units of 2 to the
    /// power -1074.
    pub open spec fn units(self) -> int {
        if self.negative() {
            -self.size()
        } else {
            self.size()
        }
    }

    /// `self < n`: false where `self` is not a number.
    pub open spec fn below_whole(self, n: int) -> bool {
        &&& !self.nan()
        &&& if self.finite() {
            self.units() < n * pow2(1074)
        } else {
            self.negative()
        }
    }

    /// The number without its fraction, as far as an `i64` reaches; 0 for what
    /// is not a number.
    pub open spec fn truncation(self) -> int {
        let whole = self.size() / pow2(1074) as int;
        if self.nan() {
            0
        } else if self.negative() {
            if !self.finite() || whole > 0x8000_0000_0000_0000 {
                i64::MIN as int
            } else {
                -whole
            }
        } else {
            if !self.finite() || whole > i64::MAX {
                i64::MAX as int
            } else {
                whole
            }
        }
    }

    /// `self < other`: false where either is not a number.
    pub open spec fn below(self, other: Double) -> bool {
        !self.nan() && !other.nan() && self.rank() < other.rank()
    }

    /// `self <= other`: false where either is not a number.
    pub open spec fn at_most(self, other: Double) -> bool {
        !self.nan() && !other.nan() && self.rank() <= other.rank()
    }

    pub fn is_nan(self) -> (r: bool)
        ensures
            r == self.nan(),
    {
        let m: u64 = self.bits % 0x8000_0000_0000_0000;
        m > 0x7ff0_0000_0000_0000
    }

    /// The rank, by which numbers are put in order.
    pub fn order(self) -> (r: i64)
        ensures
            r == self.rank(),
    {
        let m: i64 = (self.bits % 0x8000_0000_0000_0000) as i64;
        if self.bits >= 0x8000_0000_0000_0000 {
            -m
        } else {
            m
        }
    }

    pub fn lt(self, other: Double) -> (r: bool)
        ensures
            r == self.below(other),
    {
        !self.is_nan() && !other.is_nan() && self.order() < other.order()
    }

    pub fn le(self, other: Double) -> (r: bool)
        ensures
            r == self.at_most(other),
    {
        !self.is_nan() && !other.is_nan() && self.order() <= other.order()
    }

    /// The whole part of the size, up to 2 to the power 126, and whether there is
    /// no fraction.
    fn split(self) -> (r: (u128, bool))
        requires
            self.finite(),
        ensures
            ({
                let whole = self.size() / pow2(1074) as int;
                &&& whole >= WHOLE_LIMIT ==> r.0 == WHOLE_LIMIT
                &&& whole < WHOLE_LIMIT ==> r.0 == whole
                &&& r.1 == (self.size() % pow2(1074) as int == 0)
            }),
    {
        let magnitude: u64 = self.bits % 0x8000_0000_0000_0000;
        let exponent: u64 = magnitude / 0x10_0000_0000_0000;
        let fraction: u64 = magnitude % 0x10_0000_0000_0000;
        if exponent < 1023 {
            proof {
                lemma_small(self);
                lemma_size_zero(self);
            }
            return (0, magnitude == 0);
        }
        let m: u128 = 0x10_0000_0000_0000 + fraction as u128;
        if exponent <= 1075 {
            let d: u128 = power(1075 - exponent);
            proof {
                lemma_with_fraction(self);
            }
            return (m / d, m % d == 0);
        }
        proof {
            lemma_without_fraction(self);
        }
        if exponent <= 1148 {
            let d: u128 = power(exponent - 1075);
            proof {
                lemma_product(fraction as int, (exponent - 1075) as nat);
            }
            (m * d, true)
        } else {
            proof {
                lemma_product_large(fraction as int, (exponent - 1075) as nat);
            }
            (WHOLE_LIMIT, true)
        }
    }

    /// `self < n`.
    pub fn lt_whole(self, n: i128) -> (r: bool)
        requires
            -WHOLE_LIMIT < n < WHOLE_LIMIT,
        ensures
            r == self.below_whole(n as int),
            self.finite() ==> (r <==> self.units() < n * pow2(1074)),
            self.nan() ==> !r,
    {
        if self.is_nan() {
            return false;
        }
        let negative = self.bits >= 0x8000_0000_0000_0000;
        if self.bits % 0x8000_0000_0000_0000 == 0x7ff0_0000_0000_0000 {
            return negative;
        }
        let (whole, exact) = self.split();
        proof {
            lemma_size_zero(self);
            lemma_against_whole(self.size(), n as int);
        }
        if negative {
            if n >= 0 {
                n > 0 || whole > 0 || !exact
            } else {
                let k: u128 = (-n) as u128;
                whole > k || (whole == k && !exact)
            }
        } else {
            n > 0 && whole < n as u128
        }
    }

    /// The number without its fraction.
    pub fn truncated(self) -> (r: i64)
        ensures
            r == self.truncation(),
    {
        if self.is_nan() {
            return 0;
        }
        let negative = self.bits >= 0x8000_0000_0000_0000;
        let infinite = self.bits % 0x8000_0000_0000_0000 == 0x7ff0_0000_0000_0000;
        let whole: u128 = if infinite {
            WHOLE_LIMIT
        } else {
            self.split().0
        };
        proof {
            lemma_size_zero(self);
            lemma_pow2_pos(1074);
            vstd::arithmetic::div_mod::lemma_div_pos_is_pos(self.size(), pow2(1074) as int);
        }
        if negative {
            if whole >= 0x8000_0000_0000_0000 {
                i64::MIN
            } else {
                -(whole as i64)
            }
        } else {
            if whole > 0x7fff_ffff_ffff_ffff {
                i64::MAX
            } else {
                whole as i64
            }
        }
    }
}

/// Two to the power 126.
pub const WHOLE_LIMIT: u128 = 0x4000_0000_0000_0000_0000_0000_0000_0000;

proof fn lemma_limit()
    ensures
        pow2(126) == WHOLE_LIMIT,
        pow2(52) == 0x10_0000_0000_0000,
        pow2(53) == 0x20_0000_0000_0000,
{
    lemma2_to64();
    lemma2_to64_rest();
    lemma_pow2_adds(63, 63);
}

fn power(k: u64) -> (p: u128)
    requires
        k <= 126,
    ensures
        p == pow2(k as nat),
        0 < p <= WHOLE_LIMIT,
{
    let mut p: u128 = 1;
    let mut i: u64 = 0;
    proof {
        lemma2_to64();
        lemma_limit();
    }
    while i < k
        invariant
            i <= k <= 126,
            p == pow2(i as nat),
            0 < p <= WHOLE_LIMIT,
            pow2(126) == WHOLE_LIMIT,
        decreases k - i,
    {
        proof {
            lemma_pow2_unfold((i + 1) as nat);
            if i + 1 < 126 {
                lemma_pow2_strictly_increases((i + 1) as nat, 126);
            }
        }
        p = p * 2;
        i += 1;
    }
    p
}

/// Below 1 there is no whole part.
proof fn lemma_small(a: Double)
    requires
        a.magnitude() / 0x10_0000_0000_0000 < 1023,
    ensures
        a.size() / pow2(1074) as int == 0,
        a.size() % pow2(1074) as int == a.size(),
{
    let e = a.magnitude() / 0x10_0000_0000_0000;
    let f = a.magnitude() % 0x10_0000_0000_0000;
    lemma_size_zero(a);
    lemma_limit();
    if e == 0 {
        lemma_pow2_strictly_increases(52, 1074);
    } else {
        let p = pow2((e - 1) as nat) as int;
        lemma_pow2_pos((e - 1) as nat);
        lemma_pow2_adds(53, (e - 1) as nat);
        if e + 52 < 1074 {
            lemma_pow2_strictly_increases((e + 52) as nat, 1074);
        }
        assert((0x10_0000_0000_0000 + f) * p < 0x20_0000_0000_0000 * p) by (nonlinear_arith)
            requires
                0 <= f < 0x10_0000_0000_0000,
                p > 0,
        ;
    }
    vstd::arithmetic::div_mod::lemma_fundamental_div_mod_converse(a.size(), pow2(1074) as int, 0, a.size());
}

/// From 1 up to 2 to the power 53, whole part and fraction are those of the
/// significand, scaled down.
proof fn lemma_with_fraction(a: Double)
    requires
        1023 <= a.magnitude() / 0x10_0000_0000_0000 <= 1075,
    ensures
        ({
            let e = a.magnitude() / 0x10_0000_0000_0000;
            let m = 0x10_0000_0000_0000 + a.magnitude() % 0x10_0000_0000_0000;
            let d = pow2((1075 - e) as nat) as int;
            &&& a.size() / pow2(1074) as int == m / d
            &&& (a.size() % pow2(1074) as int == 0 <==> m % d == 0)
            &&& 0 <= m / d < WHOLE_LIMIT
        }),
{
    let e = a.magnitude() / 0x10_0000_0000_0000;
    let m = 0x10_0000_0000_0000 + a.magnitude() % 0x10_0000_0000_0000;
    let d = pow2((1075 - e) as nat) as int;
    let c = pow2((e - 1) as nat) as int;
    lemma_pow2_pos((1075 - e) as nat);
    lemma_pow2_pos((e - 1) as nat);
    lemma_pow2_adds((1075 - e) as nat, (e - 1) as nat);
    vstd::arithmetic::div_mod::lemma_fundamental_div_mod(m, d);
    let (q, r) = (m / d, m % d);
    assert(m * c == q * (d * c) + r * c) by (nonlinear_arith)
        requires
            m == d * q + r,
    ;
    assert(0 <= r * c < d * c) by (nonlinear_arith)
        requires
            0 <= r < d,
            c > 0,
    ;
    vstd::arithmetic::div_mod::lemma_fundamental_div_mod_converse(m * c, d * c, q, r * c);
    assert(r * c == 0 <==> r == 0) by (nonlinear_arith)
        requires
            c > 0,
    ;
    assert(0 <= q <= m) by (nonlinear_arith)
        requires
            m == d * q + r,
            0 <= r < d,
            m >= 0,
    ;
}

/// From 2 to the power 53 on, there is no fraction.
proof fn lemma_without_fraction(a: Double)
    requires
        1075 <= a.magnitude() / 0x10_0000_0000_0000,
    ensures
        ({
            let e = a.magnitude() / 0x10_0000_0000_0000;
            let m = 0x10_0000_0000_0000 + a.magnitude() % 0x10_0000_0000_0000;
            &&& a.size() / pow2(1074) as int == m * pow2((e - 1075) as nat)
            &&& a.size() % pow2(1074) as int == 0
        }),
{
    let e = a.magnitude() / 0x10_0000_0000_0000;
    let m = 0x10_0000_0000_0000 + a.magnitude() % 0x10_0000_0000_0000;
    let d = pow2((e - 1075) as nat) as int;
    let c = pow2(1074) as int;
    lemma_pow2_pos(1074);
    lemma_pow2_adds((e - 1075) as nat, 1074);
    assert(m * (d * c) == (m * d) * c + 0) by (nonlinear_arith);
    vstd::arithmetic::div_mod::lemma_fundamental_div_mod_converse(a.size(), c, m * d, 0);
}

proof fn lemma_product(f: int, k: nat)
    requires
        0 <= f < 0x10_0000_0000_0000,
        k <= 73,
    ensures
        0 <= (0x10_0000_0000_0000 + f) * pow2(k) < WHOLE_LIMIT,
{
    lemma_limit();
    lemma_pow2_pos(k);
    lemma_pow2_adds(53, 73);
    if k < 73 {
        lemma_pow2_strictly_increases(k, 73);
    }
    let p = pow2(k) as int;
    let top = pow2(73) as int;
    assert(0 <= (0x10_0000_0000_0000 + f) * p < 0x20_0000_0000_0000 * top) by (nonlinear_arith)
        requires
            0 <= f < 0x10_0000_0000_0000,
            0 < p <= top,
    ;
}

proof fn lemma_product_large(f: int, k: nat)
    requires
        0 <= f,
        k >= 74,
    ensures
        (0x10_0000_0000_0000 + f) * pow2(k) >= WHOLE_LIMIT,
{
    lemma_limit();
    lemma_pow2_adds(52, 74);
    if k > 74 {
        lemma_pow2_strictly_increases(74, k);
    }
    let p = pow2(k) as int;
    let low = pow2(74) as int;
    assert((0x10_0000_0000_0000 + f) * p >= 0x10_0000_0000_0000 * low) by (nonlinear_arith)
        requires
            0 <= f,
            p >= low >= 0,
    ;
}

/// A whole number is compared with a size by the whole part of the size and by
/// whether there is a fraction.
proof fn lemma_against_whole(size: int, n: int)
    requires
        size >= 0,
    ensures
        ({
            let w = size / pow2(1074) as int;
            let r = size % pow2(1074) as int;
            &&& w >= 0
            &&& size == 0 <==> w == 0 && r == 0
            &&& size < n * pow2(1074) <==> w < n
            &&& -size < n * pow2(1074) <==> w > -n || (w == -n && r != 0)
        }),
{
    let p = pow2(1074) as int;
    lemma_pow2_pos(1074);
    vstd::arithmetic::div_mod::lemma_fundamental_div_mod(size, p);
    let (w, r) = (size / p, size % p);
    assert(w >= 0) by (nonlinear_arith)
        requires
            size == p * w + r,
            0 <= r < p,
            size >= 0,
    ;
    assert(size == 0 <==> w == 0 && r == 0) by (nonlinear_arith)
        requires
            size == p * w + r,
            0 <= r < p,
            w >= 0,
    ;
    assert(size < n * p <==> w < n) by (nonlinear_arith)
        requires
            size == p * w + r,
            0 <= r < p,
    ;
    assert(-size < n * p <==> w > -n || (w == -n && r != 0)) by (nonlinear_arith)
        requires
            size == p * w + r,
            0 <= r < p,
    ;
}

impl Point {
    /// Both coordinates lie from 0 to the side of the board.
    pub open spec fn within_board(self) -> bool {
        let zero = Double { bits: 0 };
        let side = Double { bits: BOARD_SIZE };
        zero.at_most(self.x) && self.x.at_most(side) && zero.at_most(self.y) && self.y.at_most(side)
    }

    pub fn on_board(self) -> (r: bool)
        ensures
            r == self.within_board(),
    {
        let zero = Double { bits: 0 };
        let side = Double { bits: BOARD_SIZE };
        zero.le(self.x) && self.x.le(side) && zero.le(self.y) && self.y.le(side)
    }
}

/// Comparing ranks compares the numbers.
pub proof fn lemma_rank_orders(a: Double, b: Double)
    requires
        a.finite(),
        b.finite(),
    ensures
        a.below(b) <==> a.units() < b.units(),
        a.at_most(b) <==> a.units() <= b.units(),
{
    lemma_size_zero(a);
    lemma_size_zero(b);
    if a.magnitude() < b.magnitude() {
        lemma_size_orders(a, b);
    }
    if b.magnitude() < a.magnitude() {
        lemma_size_orders(b, a);
    }
}

/// What is cut down to a whole number fits, and is no farther from 0 than the number
/// and less than one away from it. What is past the bounds is cut down to them.
pub proof fn lemma_truncation_bounds(a: Double)
    ensures
        i64::MIN <= a.truncation() <= i64::MAX,
        a.nan() ==> a.truncation() == 0,
        a.finite() && i64::MIN < a.truncation() < i64::MAX && !a.negative() ==> a.truncation() * pow2(1074) <= a.units() < (
        a.truncation() + 1) * pow2(1074),
        a.finite() && i64::MIN < a.truncation() < i64::MAX && a.negative() ==> (a.truncation() - 1) * pow2(1074) < a.units()
            <= a.truncation() * pow2(1074),
        a.finite() && a.units() >= i64::MAX * pow2(1074) ==> a.truncation() == i64::MAX,
        a.finite() && a.units() <= i64::MIN * pow2(1074) ==> a.truncation() == i64::MIN,
{
    lemma_size_zero(a);
    lemma_pow2_pos(1074);
    let p = pow2(1074) as int;
    vstd::arithmetic::div_mod::lemma_div_pos_is_pos(a.size(), p);
    vstd::arithmetic::div_mod::lemma_fundamental_div_mod(a.size(), p);
    let (s, w, r) = (a.size(), a.size() / p, a.size() % p);
    assert(w * p <= s < (w + 1) * p) by (nonlinear_arith)
        requires
            s == p * w + r,
            0 <= r < p,
    ;
    assert(-w * p >= -s > (-w - 1) * p) by (nonlinear_arith)
        requires
            w * p <= s < (w + 1) * p,
    ;
    let top = i64::MAX as int;
    assert(s >= top * p ==> w >= top) by (nonlinear_arith)
        requires
            s < (w + 1) * p,
            p > 0,
    ;
    let low = i64::MIN as int;
    assert(-s <= low * p ==> w >= -low) by (nonlinear_arith)
        requires
            s < (w + 1) * p,
            p > 0,
    ;
}

/// Up to two to the power 53 the pattern is the number of units; and one more in the
/// exponent makes it twice as much.
pub proof fn lemma_sizes(a: Double, b: Double)
    ensures
        a.magnitude() < 0x20_0000_0000_0000 ==> a.size() == a.magnitude(),
        a.magnitude() >= 0x10_0000_0000_0000 && b.magnitude() == a.magnitude() + 0x10_0000_0000_0000 ==> b.size() == 2
            * a.size(),
{
    lemma2_to64();
    assert(pow2(0) == 1);
    if 0x10_0000_0000_0000 <= a.magnitude() < 0x20_0000_0000_0000 {
        assert(a.magnitude() / 0x10_0000_0000_0000 == 1);
        assert(a.magnitude() % 0x10_0000_0000_0000 == a.magnitude() - 0x10_0000_0000_0000);
        assert(a.size() == (0x10_0000_0000_0000 + a.magnitude() % 0x10_0000_0000_0000) * pow2(0));
    }
    if a.magnitude() >= 0x10_0000_0000_0000 && b.magnitude() == a.magnitude() + 0x10_0000_0000_0000 {
        let e = a.magnitude() / 0x10_0000_0000_0000;
        let m = 0x10_0000_0000_0000 + a.magnitude() % 0x10_0000_0000_0000;
        lemma_pow2_unfold(e as nat);
        let p = pow2((e - 1) as nat) as int;
        assert(m * (2 * p) == 2 * (m * p)) by (nonlinear_arith);
    }
}

/// The sign bit turns a number into its negative.
pub proof fn lemma_sign(a: Double, b: Double)
    requires
        a.bits < 0x8000_0000_0000_0000,
        b.bits == a.bits + 0x8000_0000_0000_0000,
    ensures
        b.units() == -a.units(),
        a.units() >= 0,
        b.nan() == a.nan(),
        b.finite() == a.finite(),
        b.rank() == -a.rank(),
{
    lemma_size_zero(a);
}

/// Nothing compares with what is not a number; what is infinite is below or above all
/// finite numbers.
pub proof fn lemma_extremes(a: Double, b: Double)
    ensures
        a.nan() ==> !a.below(b) && !b.below(a) && !a.at_most(b) && !b.at_most(a),
        a.finite() && b.bits == 0x7ff0_0000_0000_0000 ==> a.below(b) && a.at_most(b) && !b.at_most(a),
        a.finite() && b.bits == 0xfff0_0000_0000_0000 ==> b.below(a) && b.at_most(a) && !a.at_most(b),
{
}

/// A point is on the board just where both its coordinates lie from 0 to 100.
pub proof fn lemma_board(p: Point)
    requires
        p.x.finite(),
        p.y.finite(),
    ensures
        p.within_board() <==> 0 <= p.x.units() <= 100 * pow2(1074) && 0 <= p.y.units() <= 100 * pow2(1074),
{
    let zero = Double { bits: 0 };
    let side = Double { bits: BOARD_SIZE };
    lemma_size_zero(zero);
    lemma2_to64();
    lemma2_to64_rest();
    lemma_pow2_adds(46, 1028);
    let c = pow2(1028) as int;
    assert(side.magnitude() == BOARD_SIZE);
    assert(BOARD_SIZE as int / 0x10_0000_0000_0000 == 1029);
    assert(side.size() == 0x19_0000_0000_0000 * c);
    assert(0x19_0000_0000_0000 * c == 100 * (0x4000_0000_0000 * c)) by (nonlinear_arith);
    lemma_rank_orders(zero, p.x);
    lemma_rank_orders(zero, p.y);
    lemma_rank_orders(p.x, side);
    lemma_rank_orders(p.y, side);
}

proof fn lemma_size_zero(a: Double)
    ensures
        a.size() >= 0,
        a.size() == 0 <==> a.magnitude() == 0,
{
    let e = a.magnitude() / 0x10_0000_0000_0000;
    let f = a.magnitude() % 0x10_0000_0000_0000;
    if e > 0 {
        lemma_pow2_pos((e - 1) as nat);
        let p = pow2((e - 1) as nat) as int;
        assert((0x10_0000_0000_0000 + f) * p > 0) by (nonlinear_arith)
            requires
                f >= 0,
                p > 0,
        ;
    }
}

proof fn lemma_size_orders(a: Double, b: Double)
    requires
        a.magnitude() < b.magnitude(),
    ensures
        a.size() < b.size(),
{
    let one = 0x10_0000_0000_0000int;
    let (ea, fa) = (a.magnitude() / one, a.magnitude() % one);
    let (eb, fb) = (b.magnitude() / one, b.magnitude() % one);
    assert(ea < eb || (ea == eb && fa < fb));
    if eb > 0 {
        let pb = pow2((eb - 1) as nat) as int;
        lemma_pow2_pos((eb - 1) as nat);
        assert((one + fb) * pb >= one * pb) by (nonlinear_arith)
            requires
                fb >= 0,
                pb > 0,
        ;
        if ea == eb {
            assert((one + fa) * pb < (one + fb) * pb) by (nonlinear_arith)
                requires
                    fa < fb,
                    pb > 0,
            ;
        } else if ea == 0 {
            assert(one * pb >= one) by (nonlinear_arith)
                requires
                    pb > 0,
                    one > 0,
            ;
        } else {
            let pa = pow2((ea - 1) as nat) as int;
            lemma_pow2_pos((ea - 1) as nat);
            lemma_pow2_adds(ea as nat, (eb - 1 - ea) as nat);
            lemma_pow2_pos((eb - 1 - ea) as nat);
            lemma_pow2_unfold(ea as nat);
            let d = pow2((eb - 1 - ea) as nat) as int;
            assert(pb == 2 * pa * d);
            assert((one + fa) * pa < one * pb) by (nonlinear_arith)
                requires
                    pb == 2 * pa * d,
                    pa > 0,
                    d >= 1,
                    0 <= fa < one,
            ;
        }
    }
}

} // verus!
