//! Chances as fixed-point numbers, and the rating predictor.
//!
//! A chance is a `u64` that counts parts of [`SCALE`]: 0 is never, `SCALE` is
//! always. The predictor is the logistic curve of the Elo system, in which a
//! lead of 400 rating points means odds of ten to one.

use crate::bracket::Player;
use vstd::prelude::*;

verus! {

/// The number that stands for a chance of one.
pub const SCALE: u64 = 1_000_000_000_000_000_000;

/// Tells from two ratings how likely the holder of the first is to beat the
/// holder of the second.
pub trait Predictor {
    /// The chance, in parts of [`SCALE`], that `rating` beats `opponent`.
    spec fn chance(&self, rating: i32, opponent: i32) -> nat;

    /// One of the two wins: their chances add up to one.
    proof fn lemma_one_wins(&self, rating: i32, opponent: i32)
        ensures
            self.chance(rating, opponent) + self.chance(opponent, rating) == SCALE,
    ;

    /// The chance that `rating` beats `opponent`.
    fn predict(&self, rating: i32, opponent: i32) -> (chance: u64)
        ensures
            chance == self.chance(rating, opponent),
    ;
}

/// The product of two chances, rounded down.
pub open spec fn scaled(a: nat, b: nat) -> nat {
    a * b / (SCALE as nat)
}

/// Ten to the power `q`.
pub open spec fn power_of_ten(q: nat) -> nat
    decreases q,
{
    if q == 0 {
        1
    } else {
        10 * power_of_ten((q - 1) as nat)
    }
}

/// Ten to the power `2^k / 400`, in parts of [`SCALE`] and rounded to the
/// nearest; 0 beyond the nine roots that a remainder below 400 needs.
pub open spec fn root(k: nat) -> nat {
    if k == 0 {
        1_005_773_063_001_738_243
    } else if k == 1 {
        1_011_579_454_259_898_524
    } else if k == 2 {
        1_023_292_992_280_754_131
    } else if k == 3 {
        1_047_128_548_050_899_533
    } else if k == 4 {
        1_096_478_196_143_185_013
    } else if k == 5 {
        1_202_264_434_617_412_906
    } else if k == 6 {
        1_445_439_770_745_927_512
    } else if k == 7 {
        2_089_296_130_854_039_483
    } else if k == 8 {
        4_365_158_322_401_659_675
    } else {
        0
    }
}

/// Ten to the power `r * 2^k / 400`, in parts of [`SCALE`]: the product of the
/// roots that the binary digits of `r` select, from the highest digit down,
/// each product rounded down.
pub open spec fn fractional_power(r: nat, k: nat) -> nat
    decreases r,
{
    if r == 0 {
        SCALE as nat
    } else {
        let higher = fractional_power(r / 2, k + 1);
        if r % 2 == 1 {
            higher * root(k) / (SCALE as nat)
        } else {
            higher
        }
    }
}

/// The odds against the holder of a rating that is `gap` points lower: ten to
/// the power `gap / 400`, in parts of [`SCALE`].
pub open spec fn odds(gap: nat) -> nat {
    power_of_ten(gap / 400) * fractional_power(gap % 400, 0)
}

/// The chance of the holder of a rating that is `gap` points lower: one in
/// one plus the odds against, rounded down.
pub open spec fn underdog(gap: nat) -> nat {
    (SCALE as nat) * (SCALE as nat) / ((SCALE as nat) + odds(gap))
}

/// The chance that a player of rating `player_elo` beats one of rating
/// `opponent_elo`: `1 / (1 + 10^((opponent_elo - player_elo) / 400))`. The
/// one with the higher rating gets what the other one leaves.
pub open spec fn elo_chance(player_elo: int, opponent_elo: int) -> nat {
    if opponent_elo >= player_elo {
        underdog((opponent_elo - player_elo) as nat)
    } else {
        (SCALE - underdog((player_elo - opponent_elo) as nat)) as nat
    }
}

/// An upper bound of `fractional_power(r, k)` for `r` below `2^(9 - k)`.
spec fn cap(k: nat) -> nat {
    if k == 0 {
        19_500_000_000_000_000_000
    } else if k == 1 {
        19_300_000_000_000_000_000
    } else if k == 2 {
        19_000_000_000_000_000_000
    } else if k == 3 {
        18_500_000_000_000_000_000
    } else if k == 4 {
        17_600_000_000_000_000_000
    } else if k == 5 {
        16_000_000_000_000_000_000
    } else if k == 6 {
        13_300_000_000_000_000_000
    } else if k == 7 {
        9_140_000_000_000_000_000
    } else if k == 8 {
        4_370_000_000_000_000_000
    } else {
        SCALE as nat
    }
}

/// The number below which `r` lies when the roots from `k` on can hold it.
spec fn limit(k: nat) -> nat {
    if k == 0 {
        512
    } else if k == 1 {
        256
    } else if k == 2 {
        128
    } else if k == 3 {
        64
    } else if k == 4 {
        32
    } else if k == 5 {
        16
    } else if k == 6 {
        8
    } else if k == 7 {
        4
    } else if k == 8 {
        2
    } else {
        1
    }
}

/// A product with a factor of one or more, rounded down, is no less than
/// what was multiplied, and stays under a cap that the greatest product
/// stays under.
proof fn lemma_product_bounds(higher: nat, factor: nat, above: nat, here: nat, scale: nat)
    by (nonlinear_arith)
    requires
        0 < scale <= factor,
        higher <= above,
        above * factor <= here * scale,
    ensures
        higher <= higher * factor / scale <= here,
{
    assert(higher * scale <= higher * factor);
    assert(higher * factor <= above * factor);
}

/// A product with a root stays between the factor and the next cap.
proof fn lemma_root_step(higher: nat, k: nat)
    requires
        k <= 8,
        SCALE <= higher <= cap(k + 1),
    ensures
        higher <= higher * root(k) / (SCALE as nat) <= cap(k),
{
    assert(cap(k + 1) * root(k) <= cap(k) * SCALE) by {
        assert(k == 0 || k == 1 || k == 2 || k == 3 || k == 4 || k == 5 || k == 6 || k == 7 || k == 8);
    }
    lemma_product_bounds(higher, root(k), cap(k + 1), cap(k), SCALE as nat);
}

/// A fractional power is at least one, and stays under its cap.
proof fn lemma_fractional_power_bounds(r: nat, k: nat)
    requires
        k <= 9,
        r < limit(k),
    ensures
        SCALE <= fractional_power(r, k) <= cap(k),
    decreases r,
{
    if r > 0 {
        lemma_fractional_power_bounds(r / 2, k + 1);
        lemma_root_step(fractional_power(r / 2, k + 1), k);
    }
}

/// Powers of ten grow with the exponent.
proof fn lemma_power_of_ten_grows(q: nat, more: nat)
    requires
        q <= more,
    ensures
        1 <= power_of_ten(q) <= power_of_ten(more),
    decreases more,
{
    if q < more {
        lemma_power_of_ten_grows(q, (more - 1) as nat);
    } else if q > 0 {
        lemma_power_of_ten_grows((q - 1) as nat, (q - 1) as nat);
    }
}

/// What the roots below `k` multiply to at most: ten to the power
/// `(2^k - 1) / 400`, in parts of [`SCALE`] and rounded up.
spec fn below(k: nat) -> nat {
    if k == 0 {
        1_000_000_000_000_000_000
    } else if k == 1 {
        1_005_773_063_001_738_243
    } else if k == 2 {
        1_017_419_366_180_604_908
    } else if k == 3 {
        1_041_118_107_623_339_499
    } else if k == 4 {
        1_090_184_492_385_127_646
    } else if k == 5 {
        1_195_363_525_673_718_580
    } else if k == 6 {
        1_437_143_053_356_390_606
    } else if k == 7 {
        2_077_303_725_572_563_508
    } else if k == 8 {
        4_340_102_636_447_438_372
    } else {
        18_945_235_143_565_920_340
    }
}

/// A root is more than all the roots below it together.
proof fn lemma_root_above(higher: nat, factor: nat, under: nat, scale: nat)
    by (nonlinear_arith)
    requires
        0 < scale <= higher,
        factor >= under + 1,
    ensures
        scale * (higher * factor / scale) >= under * higher,
{
    assert(scale * (higher * factor / scale) >= higher * factor - scale + 1);
    assert(higher * factor >= higher * (under + 1));
    assert(higher * (under + 1) == higher * under + higher);
}

/// Rounding a product with the next root down leaves no more than the roots
/// up to it multiply to.
proof fn lemma_roots_together(
    next: nat,
    higher: nat,
    factor: nat,
    under: nat,
    together: nat,
    scale: nat,
)
    by (nonlinear_arith)
    requires
        0 < scale,
        scale * next >= together * higher,
        together * scale >= under * factor,
    ensures
        scale * next >= under * (higher * factor / scale),
{
    assert(scale * (higher * factor / scale) <= higher * factor);
    assert(under * (scale * (higher * factor / scale)) <= under * (higher * factor));
    assert(under * (higher * factor) == (under * factor) * higher);
    assert((under * factor) * higher <= (together * scale) * higher);
    assert((together * scale) * higher == scale * (together * higher));
    assert(scale * (together * higher) <= scale * (scale * next));
    assert(scale * (under * (higher * factor / scale)) <= scale * (scale * next));
}

/// One more at the digit of a root counts for more than all the lower digits
/// together.
proof fn lemma_one_more(m: nat, k: nat)
    requires
        k <= 8,
        m + 1 < limit(k),
    ensures
        SCALE * fractional_power(m + 1, k) >= below(k) * fractional_power(m, k),
    decreases m,
{
    let s = SCALE as nat;
    let higher = fractional_power(m / 2, k + 1);
    assert(limit(k) == 2 * limit(k + 1)) by {
        assert(k == 0 || k == 1 || k == 2 || k == 3 || k == 4 || k == 5 || k == 6 || k == 7 || k == 8);
    }
    lemma_fractional_power_bounds(m / 2, k + 1);
    if m % 2 == 0 {
        assert(fractional_power(m, k) == higher);
        assert((m + 1) / 2 == m / 2);
        assert(fractional_power(m + 1, k) == higher * root(k) / s);
        assert(root(k) >= below(k) + 1) by {
            assert(k == 0 || k == 1 || k == 2 || k == 3 || k == 4 || k == 5 || k == 6 || k == 7 || k == 8);
        }
        lemma_root_above(higher, root(k), below(k), s);
    } else {
        let n = m / 2;
        assert((m + 1) / 2 == n + 1);
        lemma_one_more(n, k + 1);
        assert(fractional_power(m, k) == higher * root(k) / s);
        assert(fractional_power(m + 1, k) == fractional_power(n + 1, k + 1));
        assert(below(k + 1) * s >= below(k) * root(k)) by {
            assert(k == 0 || k == 1 || k == 2 || k == 3 || k == 4 || k == 5 || k == 6 || k == 7);
        }
        lemma_roots_together(fractional_power(n + 1, k + 1), higher, root(k), below(k), below(k + 1), s);
    }
}

/// The fractional power grows with the exponent.
proof fn lemma_fractional_power_grows(r: nat, more: nat)
    requires
        r <= more < 512,
    ensures
        fractional_power(r, 0) <= fractional_power(more, 0),
    decreases more - r,
{
    if r < more {
        lemma_one_more(r, 0);
        lemma_fractional_power_grows(r + 1, more);
    }
}

/// Below four hundred points the odds stay below ten to one.
proof fn lemma_below_ten(r: nat)
    requires
        r < 400,
    ensures
        fractional_power(r, 0) <= 10 * SCALE,
{
    lemma_fractional_power_grows(r, 399);
    let s = SCALE as nat;
    assert(fractional_power(0, 9) == s);
    assert(fractional_power(1, 8) == 4_365_158_322_401_659_675);
    assert(fractional_power(3, 7) == fractional_power(1, 8) * root(7) / s);
    assert(fractional_power(6, 6) == fractional_power(3, 7));
    assert(fractional_power(12, 5) == fractional_power(6, 6));
    assert(fractional_power(24, 4) == fractional_power(12, 5));
    assert(fractional_power(49, 3) == fractional_power(24, 4) * root(3) / s);
    assert(fractional_power(99, 2) == fractional_power(49, 3) * root(2) / s);
    assert(fractional_power(199, 1) == fractional_power(99, 2) * root(1) / s);
    assert(fractional_power(399, 0) == fractional_power(199, 1) * root(0) / s);
    assert(fractional_power(399, 0) == 9_942_600_739_529_566_560);
}

/// The odds against grow with the gap.
pub proof fn lemma_odds_grow(gap: nat, more: nat)
    requires
        gap <= more,
    ensures
        odds(gap) <= odds(more),
{
    let q = gap / 400;
    let p = more / 400;
    let f = fractional_power(gap % 400, 0);
    let g = fractional_power(more % 400, 0);
    let s = SCALE as nat;
    lemma_fractional_power_bounds(gap % 400, 0);
    lemma_fractional_power_bounds(more % 400, 0);
    if q == p {
        lemma_fractional_power_grows(gap % 400, more % 400);
        assert(power_of_ten(q) * f <= power_of_ten(q) * g) by (nonlinear_arith)
            requires
                f <= g,
        ;
    } else {
        lemma_below_ten(gap % 400);
        lemma_power_of_ten_grows(q + 1, p);
        let t = power_of_ten(q);
        let u = power_of_ten(p);
        assert(power_of_ten(q + 1) == 10 * t);
        assert(t * f <= u * g) by (nonlinear_arith)
            requires
                f <= 10 * s,
                s <= g,
                10 * t <= u,
        {
            assert(t * f <= t * (10 * s));
            assert(t * (10 * s) == (10 * t) * s);
            assert((10 * t) * s <= u * s);
            assert(u * s <= u * g);
        }
    }
}

/// The underdog's chance shrinks as the gap grows.
pub proof fn lemma_underdog_shrinks(gap: nat, more: nat)
    requires
        gap <= more,
    ensures
        underdog(more) <= underdog(gap),
{
    lemma_odds_grow(gap, more);
    let s = SCALE as nat;
    let o = odds(gap);
    let p = odds(more);
    vstd::arithmetic::div_mod::lemma_div_is_ordered_by_denominator((s * s) as int, (s + o) as int, (s + p) as int);
}

/// The higher the own rating, the better the chance; the higher the
/// opponent's, the worse.
pub proof fn lemma_higher_rating_is_likelier(rating: int, better: int, opponent: int)
    requires
        rating <= better,
    ensures
        elo_chance(rating, opponent) <= elo_chance(better, opponent),
        elo_chance(opponent, better) <= elo_chance(opponent, rating),
{
    lemma_elo_symmetry(rating, opponent);
    lemma_elo_symmetry(better, opponent);
    if opponent >= better {
        lemma_underdog_shrinks((opponent - better) as nat, (opponent - rating) as nat);
    } else if opponent >= rating {
        lemma_underdog_shrinks(0, (opponent - rating) as nat);
        lemma_underdog_shrinks(0, (better - opponent) as nat);
        lemma_underdog_at_most_one((better - opponent) as nat);
        lemma_equal_ratings(opponent);
    } else {
        lemma_underdog_shrinks((rating - opponent) as nat, (better - opponent) as nat);
        lemma_underdog_at_most_one((rating - opponent) as nat);
    }
}

/// The roots are what they are called. Each one, squared, is the next one
/// to within one part; and as 256 + 128 + 16 is 400, the roots for these
/// three multiply to ten, to within two parts.
pub proof fn lemma_roots_of_ten()
    ensures
        -SCALE < root(0) * root(0) - root(1) * SCALE < SCALE,
        -SCALE < root(1) * root(1) - root(2) * SCALE < SCALE,
        -SCALE < root(2) * root(2) - root(3) * SCALE < SCALE,
        -SCALE < root(3) * root(3) - root(4) * SCALE < SCALE,
        -SCALE < root(4) * root(4) - root(5) * SCALE < SCALE,
        -SCALE < root(5) * root(5) - root(6) * SCALE < SCALE,
        -SCALE < root(6) * root(6) - root(7) * SCALE < SCALE,
        -SCALE < root(7) * root(7) - root(8) * SCALE < SCALE,
        -2 * (SCALE * SCALE) < root(8) * root(7) * root(4) - 10 * (SCALE * SCALE * SCALE) < 2 * (SCALE
            * SCALE),
{
    assert(root(8) * root(7) * root(4) == 10 * (SCALE * SCALE * SCALE)
        - 1_067_238_732_297_043_207_240_628_963_714_050_675) by (nonlinear_arith)
        requires
            root(8) == 4_365_158_322_401_659_675,
            root(7) == 2_089_296_130_854_039_483,
            root(4) == 1_096_478_196_143_185_013,
            SCALE == 1_000_000_000_000_000_000,
    ;
    assert(SCALE * SCALE == 1_000_000_000_000_000_000_000_000_000_000_000_000) by (nonlinear_arith)
        requires
            SCALE == 1_000_000_000_000_000_000,
    ;
}

/// Four hundred points more multiply the odds by ten.
pub proof fn lemma_four_hundred_points(gap: nat)
    ensures
        odds(gap + 400) == 10 * odds(gap),
{
    assert((gap + 400) / 400 == gap / 400 + 1);
    assert((gap + 400) % 400 == gap % 400);
    let q = gap / 400;
    let f = fractional_power(gap % 400, 0);
    assert(power_of_ten(q + 1) == 10 * power_of_ten(q));
    assert((10 * power_of_ten(q)) * f == 10 * (power_of_ten(q) * f)) by (nonlinear_arith);
}

/// At a multiple of four hundred points nothing is rounded but the chance
/// itself: with odds of `10^q` to one against, it is one in `1 + 10^q`.
pub proof fn lemma_whole_powers(q: nat)
    ensures
        odds(400 * q) == power_of_ten(q) * SCALE,
        underdog(400 * q) == (SCALE as nat) / (1 + power_of_ten(q)),
{
    assert((400 * q) / 400 == q && (400 * q) % 400 == 0);
    assert(fractional_power(0, 0) == SCALE);
    let s = SCALE as nat;
    let p = power_of_ten(q);
    assert(s * s / (s + p * s) == s / (1 + p)) by (nonlinear_arith)
        requires
            s > 0,
            p >= 0,
    {
        assert(s + p * s == s * (1 + p));
        assert(s * s / (s * (1 + p)) == s / (1 + p));
    }
}

/// No chance exceeds one.
pub proof fn lemma_underdog_at_most_one(gap: nat)
    ensures
        underdog(gap) <= SCALE,
{
    let s = SCALE as nat;
    let o = odds(gap);
    assert(s * s / (s + o) <= s) by (nonlinear_arith)
        requires
            s > 0,
            o >= 0,
    ;
}

/// Equal ratings give each side exactly one half.
pub proof fn lemma_equal_ratings(rating: int)
    ensures
        elo_chance(rating, rating) == SCALE / 2,
{
    assert(power_of_ten(0) == 1);
    assert(fractional_power(0, 0) == SCALE);
    assert(odds(0) == SCALE) by {
        assert(1 * (SCALE as nat) == SCALE);
    }
    let s = SCALE as nat;
    assert(s * s / (s + s) == s / 2) by (nonlinear_arith)
        requires
            s == 1_000_000_000_000_000_000,
    ;
}

/// The chances of the two sides add up to one.
pub proof fn lemma_elo_symmetry(a: int, b: int)
    ensures
        elo_chance(a, b) + elo_chance(b, a) == SCALE,
{
    if a == b {
        lemma_equal_ratings(a);
    } else if b > a {
        lemma_underdog_at_most_one((b - a) as nat);
    } else {
        lemma_underdog_at_most_one((a - b) as nat);
    }
}

/// `root(k)` for the roots that exist.
fn root_of(k: u32) -> (value: u128)
    requires
        k <= 8,
    ensures
        value == root(k as nat),
{
    if k == 0 {
        1_005_773_063_001_738_243
    } else if k == 1 {
        1_011_579_454_259_898_524
    } else if k == 2 {
        1_023_292_992_280_754_131
    } else if k == 3 {
        1_047_128_548_050_899_533
    } else if k == 4 {
        1_096_478_196_143_185_013
    } else if k == 5 {
        1_202_264_434_617_412_906
    } else if k == 6 {
        1_445_439_770_745_927_512
    } else if k == 7 {
        2_089_296_130_854_039_483
    } else {
        4_365_158_322_401_659_675
    }
}

/// `fractional_power(r, k)`.
fn fractional_power_of(r: u32, k: u32) -> (value: u128)
    requires
        k <= 9,
        r < limit(k as nat),
    ensures
        value == fractional_power(r as nat, k as nat),
        SCALE <= value <= cap(k as nat),
    decreases r,
{
    proof {
        lemma_fractional_power_bounds(r as nat, k as nat);
    }
    if r == 0 {
        SCALE as u128
    } else {
        let higher = fractional_power_of(r / 2, k + 1);
        if r % 2 == 1 {
            let factor = root_of(k);
            assert(higher * factor <= 86_000_000_000_000_000_000_000_000_000_000_000_000) by (nonlinear_arith)
                requires
                    higher <= 19_500_000_000_000_000_000,
                    factor <= 4_370_000_000_000_000_000,
            ;
            higher * factor / (SCALE as u128)
        } else {
            higher
        }
    }
}

/// `power_of_ten(q)` for the exponents whose power, times any fractional
/// power, a `u128` holds.
fn power_of_ten_of(q: u32) -> (value: u128)
    requires
        q <= 18,
    ensures
        value == power_of_ten(q as nat),
        value <= 1_000_000_000_000_000_000,
{
    let mut value: u128 = 1;
    let mut i: u32 = 0;
    proof {
        lemma_power_of_ten_18();
        lemma_power_of_ten_grows(0, 18);
    }
    while i < q
        invariant
            i <= q <= 18,
            value == power_of_ten(i as nat),
            value <= power_of_ten(18),
            power_of_ten(18) == 1_000_000_000_000_000_000,
        decreases q - i,
    {
        proof {
            lemma_power_of_ten_grows((i + 1) as nat, 18);
        }
        value = value * 10;
        i += 1;
    }
    value
}

/// Ten to the power 18.
proof fn lemma_power_of_ten_18()
    ensures
        power_of_ten(18) == 1_000_000_000_000_000_000,
{
    reveal_with_fuel(power_of_ten, 19);
}

/// `underdog(gap)`.
fn underdog_of(gap: u32) -> (chance: u64)
    ensures
        chance == underdog(gap as nat),
        chance <= SCALE,
{
    let q: u32 = gap / 400;
    let r: u32 = gap % 400;
    let fraction = fractional_power_of(r, 0);
    let scale: u128 = SCALE as u128;
    proof {
        lemma_underdog_at_most_one(gap as nat);
    }
    if q > 18 {
        proof {
            lemma_power_of_ten_grows(19, q as nat);
            reveal_with_fuel(power_of_ten, 20);
            let p = power_of_ten(q as nat);
            let f = fraction as nat;
            let s = SCALE as nat;
            assert(p * f >= 10_000_000_000_000_000_000 * s) by (nonlinear_arith)
                requires
                    p >= 10_000_000_000_000_000_000,
                    f >= s,
            ;
            assert(s * s / (s + p * f) == 0) by (nonlinear_arith)
                requires
                    s == 1_000_000_000_000_000_000,
                    p * f >= 10_000_000_000_000_000_000 * s,
            ;
        }
        0
    } else {
        let tens = power_of_ten_of(q);
        assert(tens * fraction <= 19_500_000_000_000_000_000_000_000_000_000_000_000) by (nonlinear_arith)
            requires
                tens <= 1_000_000_000_000_000_000,
                fraction <= 19_500_000_000_000_000_000,
        ;
        let against: u128 = tens * fraction;
        let chance: u128 = scale * scale / (scale + against);
        chance as u64
    }
}

/// The chance, in parts of [`SCALE`], that a player of rating `player_elo`
/// beats one of rating `opponent_elo`.
pub fn victory_probability(player_elo: i32, opponent_elo: i32) -> (chance: u64)
    ensures
        chance == elo_chance(player_elo as int, opponent_elo as int),
        chance <= SCALE,
{
    let gap: i64 = opponent_elo as i64 - player_elo as i64;
    if gap >= 0 {
        underdog_of(gap as u32)
    } else {
        SCALE - underdog_of((-gap) as u32)
    }
}

impl Player {
    /// The chance, in parts of [`SCALE`], that this player beats `other`,
    /// going by their ratings.
    pub fn beats(&self, other: &Player) -> (chance: u64)
        ensures
            chance == elo_chance(self.elo as int, other.elo as int),
            chance <= SCALE,
    {
        victory_probability(self.elo, other.elo)
    }
}

/// The predictor that goes by the Elo curve.
#[derive(Clone, Copy, Debug)]
pub struct Elo;

impl Predictor for Elo {
    open spec fn chance(&self, rating: i32, opponent: i32) -> nat {
        elo_chance(rating as int, opponent as int)
    }

    proof fn lemma_one_wins(&self, rating: i32, opponent: i32) {
        lemma_elo_symmetry(rating as int, opponent as int);
    }

    fn predict(&self, rating: i32, opponent: i32) -> (chance: u64) {
        victory_probability(rating, opponent)
    }
}

/// The predictor that knows no doubt: the higher rating always wins, and
/// equal ratings have even chances.
#[derive(Clone, Copy, Debug)]
pub struct Favourite;

impl Predictor for Favourite {
    open spec fn chance(&self, rating: i32, opponent: i32) -> nat {
        if rating > opponent {
            SCALE as nat
        } else if rating < opponent {
            0
        } else {
            (SCALE / 2) as nat
        }
    }

    proof fn lemma_one_wins(&self, rating: i32, opponent: i32) {
    }

    fn predict(&self, rating: i32, opponent: i32) -> (chance: u64) {
        if rating > opponent {
            SCALE
        } else if rating < opponent {
            0
        } else {
            SCALE / 2
        }
    }
}

} // verus!
