//! What the chances of a bracket add up to.
//!
//! Exactly one entrant wins, so the chances of all places should add up to
//! one. With products rounded down they add up to a little less; how much
//! less is bounded here. The proofs compare the rounded sums with the sums of
//! the unrounded products, which split exactly.

use crate::bracket::is_bracket_size;
use crate::engine::{contest_chance, final_chance, total_chance, win_chance};
use crate::predictor::{scaled, Predictor, SCALE};
use crate::util::lemma_half_of_power;
use vstd::arithmetic::power2::{lemma2_to64, lemma_pow2_adds, lemma_pow2_unfold, pow2};
use vstd::prelude::*;

verus! {

/// The sum behind `final_chance` without the rounding: the products of the
/// chance to beat a place of `others` and that place's chance, not yet
/// divided by [`SCALE`].
pub open spec fn raw_final<P: Predictor>(
    me: Option<i32>,
    others: Seq<Option<i32>>,
    count: nat,
    predictor: &P,
) -> nat
    decreases count,
{
    if count == 0 {
        0
    } else {
        raw_final(me, others, (count - 1) as nat, predictor) + contest_chance(
            me,
            others[count - 1],
            predictor,
        ) * win_chance(others, count - 1, predictor)
    }
}

/// The same sum seen from the other side: the chance of each of the first
/// `count` places of `others`, times its chance to beat `me`.
pub open spec fn raw_defeat<P: Predictor>(
    me: Option<i32>,
    others: Seq<Option<i32>>,
    count: nat,
    predictor: &P,
) -> nat
    decreases count,
{
    if count == 0 {
        0
    } else {
        raw_defeat(me, others, (count - 1) as nat, predictor) + win_chance(
            others,
            count - 1,
            predictor,
        ) * contest_chance(others[count - 1], me, predictor)
    }
}

/// The chances to win the whole, added up over the first `count` places of
/// the half `own`, whose final is against the half `others`.
pub open spec fn advance<P: Predictor>(
    own: Seq<Option<i32>>,
    others: Seq<Option<i32>>,
    count: nat,
    predictor: &P,
) -> nat
    decreases count,
{
    if count == 0 {
        0
    } else {
        advance(own, others, (count - 1) as nat, predictor) + scaled(
            win_chance(own, count - 1, predictor),
            final_chance(own[count - 1], others, others.len(), predictor),
        )
    }
}

/// The same without any rounding, and with the final summed over the first
/// `against` places of `others` only.
pub open spec fn raw_advance<P: Predictor>(
    own: Seq<Option<i32>>,
    others: Seq<Option<i32>>,
    count: nat,
    against: nat,
    predictor: &P,
) -> nat
    decreases count,
{
    if count == 0 {
        0
    } else {
        raw_advance(own, others, (count - 1) as nat, against, predictor) + win_chance(
            own,
            count - 1,
            predictor,
        ) * raw_final(own[count - 1], others, against, predictor)
    }
}

/// What rounding can cost a bracket of `len` places: two parts for each place
/// in every round but the first.
pub open spec fn slack(len: nat) -> nat
    decreases len,
{
    if len <= 2 {
        0
    } else {
        2 * slack(len / 2) + 2 * len
    }
}

/// The `k`-th pair of the first round has an entrant.
pub open spec fn pair_has_entrant(bracket: Seq<Option<i32>>, k: int) -> bool {
    bracket[2 * k] is Some || bracket[2 * k + 1] is Some
}

/// Every pair of the first round has an entrant.
pub open spec fn no_empty_pair(bracket: Seq<Option<i32>>) -> bool {
    forall|k: int| 0 <= k < bracket.len() / 2 ==> #[trigger] pair_has_entrant(bracket, k)
}

/// Rounding a quotient down loses less than the divisor.
proof fn lemma_floor(x: nat, s: nat)
    by (nonlinear_arith)
    requires
        s > 0,
    ensures
        s * (x / s) <= x <= s * (x / s) + s - 1,
{
}

/// A product with nothing is nothing.
proof fn lemma_scaled_zero(b: nat)
    by (nonlinear_arith)
    ensures
        scaled(0, b) == 0,
        scaled(b, 0) == 0,
{
}

/// The product of two chances is no more than either.
proof fn lemma_scaled_bounded(a: nat, b: nat)
    by (nonlinear_arith)
    requires
        a <= SCALE,
        b <= SCALE,
    ensures
        scaled(a, b) <= a,
        scaled(a, b) <= b,
{
}

/// Of two places, the chances to beat each other add up to one, unless both
/// are byes, and never to more.
pub proof fn lemma_contest_pair<P: Predictor>(p: Option<i32>, q: Option<i32>, predictor: &P)
    ensures
        p is Some || q is Some ==> contest_chance(p, q, predictor) + contest_chance(q, p, predictor)
            == SCALE,
        p is None && q is None ==> contest_chance(p, q, predictor) + contest_chance(q, p, predictor)
            == 0,
        contest_chance(p, q, predictor) <= SCALE,
        p is Some && q is None ==> contest_chance(p, q, predictor) == SCALE,
        p is None ==> contest_chance(p, q, predictor) == 0,
{
    if p is Some && q is Some {
        predictor.lemma_one_wins(p->Some_0, q->Some_0);
    }
}

/// A bye never wins.
pub proof fn lemma_bye_never_wins<P: Predictor>(bracket: Seq<Option<i32>>, i: int, predictor: &P)
    requires
        is_bracket_size(bracket.len() as int),
        0 <= i < bracket.len(),
        bracket[i] is None,
    ensures
        win_chance(bracket, i, predictor) == 0,
    decreases bracket.len(),
{
    if bracket.len() > 2 {
        let half = (bracket.len() / 2) as int;
        lemma_half_of_power(bracket.len() as int);
        if i < half {
            let own = bracket.subrange(0, half);
            lemma_bye_never_wins(own, i, predictor);
            lemma_scaled_zero(
                final_chance(bracket[i], bracket.subrange(half, bracket.len() as int), half as nat, predictor),
            );
        } else {
            let own = bracket.subrange(half, bracket.len() as int);
            lemma_bye_never_wins(own, i - half, predictor);
            lemma_scaled_zero(final_chance(bracket[i], bracket.subrange(0, half), half as nat, predictor));
        }
    }
}

/// The chances of the first places of a bracket are what advances from its
/// first half.
proof fn lemma_total_of_top<P: Predictor>(bracket: Seq<Option<i32>>, count: nat, predictor: &P)
    requires
        bracket.len() > 2,
        bracket.len() % 2 == 0,
        count <= bracket.len() / 2,
    ensures
        total_chance(bracket, count, predictor) == advance(
            bracket.subrange(0, (bracket.len() / 2) as int),
            bracket.subrange((bracket.len() / 2) as int, bracket.len() as int),
            count,
            predictor,
        ),
    decreases count,
{
    if count > 0 {
        lemma_total_of_top(bracket, (count - 1) as nat, predictor);
    }
}

/// The total of a bracket is what advances from its two halves.
proof fn lemma_total_of_halves<P: Predictor>(bracket: Seq<Option<i32>>, count: nat, predictor: &P)
    requires
        bracket.len() > 2,
        bracket.len() % 2 == 0,
        count <= bracket.len() / 2,
    ensures
        total_chance(bracket, bracket.len() / 2 + count, predictor) == advance(
            bracket.subrange(0, (bracket.len() / 2) as int),
            bracket.subrange((bracket.len() / 2) as int, bracket.len() as int),
            bracket.len() / 2,
            predictor,
        ) + advance(
            bracket.subrange((bracket.len() / 2) as int, bracket.len() as int),
            bracket.subrange(0, (bracket.len() / 2) as int),
            count,
            predictor,
        ),
    decreases count,
{
    if count > 0 {
        lemma_total_of_halves(bracket, (count - 1) as nat, predictor);
    } else {
        lemma_total_of_top(bracket, bracket.len() / 2, predictor);
    }
}

/// The rounded final sum against the unrounded one: each of the `count`
/// products lost less than one part to rounding.
proof fn lemma_final_rounding<P: Predictor>(
    me: Option<i32>,
    others: Seq<Option<i32>>,
    count: nat,
    predictor: &P,
)
    requires
        count <= others.len(),
    ensures
        SCALE * final_chance(me, others, count, predictor) <= raw_final(me, others, count, predictor),
        raw_final(me, others, count, predictor) <= SCALE * final_chance(me, others, count, predictor)
            + count * (SCALE - 1),
    decreases count,
{
    if count > 0 {
        let before = (count - 1) as nat;
        lemma_final_rounding(me, others, before, predictor);
        let product = contest_chance(me, others[count - 1], predictor) * win_chance(
            others,
            count - 1,
            predictor,
        );
        lemma_floor(product, SCALE as nat);
        let rounded = final_chance(me, others, before, predictor);
        let term = product / (SCALE as nat);
        assert(final_chance(me, others, count, predictor) == rounded + term);
        assert(SCALE * (rounded + term) == SCALE * rounded + SCALE * term) by (nonlinear_arith);
        assert(count * (SCALE - 1) == before * (SCALE - 1) + (SCALE - 1)) by (nonlinear_arith)
            requires
                count == before + 1,
        ;
    }
}

/// The rounded chances of a half against the unrounded ones.
proof fn lemma_advance_rounding<P: Predictor>(
    own: Seq<Option<i32>>,
    others: Seq<Option<i32>>,
    count: nat,
    predictor: &P,
)
    requires
        count <= own.len(),
    ensures
        SCALE * SCALE * advance(own, others, count, predictor) <= raw_advance(
            own,
            others,
            count,
            others.len(),
            predictor,
        ),
        raw_advance(own, others, count, others.len(), predictor) <= SCALE * SCALE * advance(
            own,
            others,
            count,
            predictor,
        ) + count * (SCALE * SCALE) + others.len() * SCALE * total_chance(own, count, predictor),
    decreases count,
{
    if count > 0 {
        let before = (count - 1) as nat;
        lemma_advance_rounding(own, others, before, predictor);
        let s = SCALE as nat;
        let n = others.len();
        let w = win_chance(own, count - 1, predictor);
        let f = final_chance(own[count - 1], others, n, predictor);
        let raw = raw_final(own[count - 1], others, n, predictor);
        let term = scaled(w, f);
        lemma_final_rounding(own[count - 1], others, n, predictor);
        lemma_floor(w * f, s);
        lemma_term_rounding(w, f, raw, term, n, s);
        let a0 = advance(own, others, before, predictor);
        let r0 = raw_advance(own, others, before, n, predictor);
        let t0 = total_chance(own, before, predictor);
        assert(advance(own, others, count, predictor) == a0 + term);
        assert(raw_advance(own, others, count, n, predictor) == r0 + w * raw);
        assert(total_chance(own, count, predictor) == t0 + w);
        assert(s * s * (a0 + term) == s * s * a0 + s * s * term) by (nonlinear_arith);
        assert(count * (s * s) == before * (s * s) + s * s) by (nonlinear_arith)
            requires
                count == before + 1,
        ;
        assert(n * s * (t0 + w) == n * s * t0 + n * s * w) by (nonlinear_arith);
    }
}

/// One term of [`lemma_advance_rounding`]: a chance `w`, times a final whose
/// rounded sum is `f` and whose unrounded sum of `n` products is `raw`.
proof fn lemma_term_rounding(w: nat, f: nat, raw: nat, term: nat, n: nat, s: nat)
    by (nonlinear_arith)
    requires
        s > 0,
        s * f <= raw <= s * f + n * (s - 1),
        s * term <= w * f <= s * term + s - 1,
    ensures
        s * s * term <= w * raw,
        w * raw <= s * s * term + s * s + n * s * w,
{
    assert(s * (s * term) <= s * (w * f));
    assert(s * (w * f) == w * (s * f));
    assert(w * (s * f) <= w * raw);
    assert(w * raw <= w * (s * f + n * (s - 1)));
    assert(w * (s * f + n * (s - 1)) == s * (w * f) + w * (n * (s - 1)));
    assert(s * (w * f) <= s * (s * term + s - 1));
    assert(w * (n * (s - 1)) <= n * s * w);
    assert(s * (s * term + s - 1) <= s * s * term + s * s);
}

/// Against an entrant, winning and losing share out each place's chance:
/// the two unrounded sums add up to the total of the places.
proof fn lemma_win_or_lose<P: Predictor>(
    me: Option<i32>,
    others: Seq<Option<i32>>,
    count: nat,
    predictor: &P,
)
    requires
        me is Some,
        count <= others.len(),
    ensures
        raw_final(me, others, count, predictor) + raw_defeat(me, others, count, predictor) == SCALE
            * total_chance(others, count, predictor),
    decreases count,
{
    if count > 0 {
        let before = (count - 1) as nat;
        lemma_win_or_lose(me, others, before, predictor);
        lemma_contest_pair(me, others[count - 1], predictor);
        let c = contest_chance(me, others[count - 1], predictor);
        let d = contest_chance(others[count - 1], me, predictor);
        let w = win_chance(others, count - 1, predictor);
        let t = total_chance(others, before, predictor);
        assert(c * w + w * d == SCALE * w) by (nonlinear_arith)
            requires
                c + d == SCALE,
        ;
        assert(SCALE * (t + w) == SCALE * t + SCALE * w) by (nonlinear_arith);
    }
}

/// Nobody advances against nobody.
proof fn lemma_raw_advance_against_none<P: Predictor>(
    own: Seq<Option<i32>>,
    others: Seq<Option<i32>>,
    count: nat,
    predictor: &P,
)
    ensures
        raw_advance(own, others, count, 0, predictor) == 0,
    decreases count,
{
    if count > 0 {
        lemma_raw_advance_against_none(own, others, (count - 1) as nat, predictor);
        let w = win_chance(own, count - 1, predictor);
        assert(w * 0 == 0) by (nonlinear_arith);
    }
}

/// One more opponent adds, to the unrounded chances of a half, what its
/// places win against that opponent.
proof fn lemma_raw_advance_grows<P: Predictor>(
    own: Seq<Option<i32>>,
    others: Seq<Option<i32>>,
    count: nat,
    against: nat,
    predictor: &P,
)
    ensures
        raw_advance(own, others, count, against + 1, predictor) == raw_advance(
            own,
            others,
            count,
            against,
            predictor,
        ) + win_chance(others, against as int, predictor) * raw_defeat(
            others[against as int],
            own,
            count,
            predictor,
        ),
    decreases count,
{
    if count > 0 {
        let before = (count - 1) as nat;
        lemma_raw_advance_grows(own, others, before, against, predictor);
        let w = win_chance(own, count - 1, predictor);
        let v = win_chance(others, against as int, predictor);
        let c = contest_chance(own[count - 1], others[against as int], predictor);
        let r = raw_final(own[count - 1], others, against, predictor);
        let d = raw_defeat(others[against as int], own, before, predictor);
        assert(raw_final(own[count - 1], others, against + 1, predictor) == r + c * v);
        assert(raw_defeat(others[against as int], own, count, predictor) == d + w * c);
        assert(w * (r + c * v) + v * d == w * r + v * (d + w * c)) by (nonlinear_arith);
    } else {
        let v = win_chance(others, against as int, predictor);
        assert(v * 0 == 0) by (nonlinear_arith);
    }
}

/// Without rounding the two halves share out everything: the unrounded
/// chances of both add up to the product of their totals.
proof fn lemma_raw_shares<P: Predictor>(
    top: Seq<Option<i32>>,
    bottom: Seq<Option<i32>>,
    count: nat,
    against: nat,
    predictor: &P,
)
    requires
        is_bracket_size(top.len() as int),
        is_bracket_size(bottom.len() as int),
        count <= top.len(),
        against <= bottom.len(),
    ensures
        raw_advance(top, bottom, count, against, predictor) + raw_advance(
            bottom,
            top,
            against,
            count,
            predictor,
        ) == SCALE * (total_chance(top, count, predictor) * total_chance(bottom, against, predictor)),
    decreases count,
{
    let tb = total_chance(bottom, against, predictor);
    if count == 0 {
        lemma_raw_advance_against_none(bottom, top, against, predictor);
        assert(SCALE * (0 * tb) == 0) by (nonlinear_arith);
    } else {
        let before = (count - 1) as nat;
        lemma_raw_shares(top, bottom, before, against, predictor);
        lemma_raw_advance_grows(bottom, top, against, before, predictor);
        let w = win_chance(top, before as int, predictor);
        let me = top[before as int];
        let won = raw_final(me, bottom, against, predictor);
        let lost = raw_defeat(me, bottom, against, predictor);
        let tt = total_chance(top, before, predictor);
        assert(w * won + w * lost == SCALE * (w * tb)) by {
            if me is Some {
                lemma_win_or_lose(me, bottom, against, predictor);
                assert(w * won + w * lost == SCALE * (w * tb)) by (nonlinear_arith)
                    requires
                        won + lost == SCALE * tb,
                ;
            } else {
                lemma_bye_never_wins(top, before as int, predictor);
                assert(0 * won + 0 * lost == SCALE * (0 * tb)) by (nonlinear_arith);
            }
        }
        assert(SCALE * ((tt + w) * tb) == SCALE * (tt * tb) + SCALE * (w * tb)) by (nonlinear_arith);
    }
}

/// The chances of the first places are no more than the chances of all.
proof fn lemma_total_grows<P: Predictor>(bracket: Seq<Option<i32>>, count: nat, more: nat, predictor: &P)
    requires
        count <= more,
    ensures
        total_chance(bracket, count, predictor) <= total_chance(bracket, more, predictor),
    decreases more,
{
    if count < more {
        lemma_total_grows(bracket, count, (more - 1) as nat, predictor);
    }
}

/// The chances of a bracket never add up to more than one.
pub proof fn lemma_total_at_most_one<P: Predictor>(bracket: Seq<Option<i32>>, predictor: &P)
    requires
        is_bracket_size(bracket.len() as int),
    ensures
        total_chance(bracket, bracket.len(), predictor) <= SCALE,
    decreases bracket.len(),
{
    let len = bracket.len();
    if len == 2 {
        reveal_with_fuel(total_chance, 3);
        lemma_contest_pair(bracket[0], bracket[1], predictor);
    } else {
        lemma_half_of_power(len as int);
        let half = len / 2;
        let top = bracket.subrange(0, half as int);
        let bottom = bracket.subrange(half as int, len as int);
        lemma_total_at_most_one(top, predictor);
        lemma_total_at_most_one(bottom, predictor);
        lemma_total_of_halves(bracket, half, predictor);
        lemma_advance_rounding(top, bottom, half, predictor);
        lemma_advance_rounding(bottom, top, half, predictor);
        lemma_raw_shares(top, bottom, half, half, predictor);
        let s = SCALE as nat;
        let tt = total_chance(top, half, predictor);
        let tb = total_chance(bottom, half, predictor);
        let at = advance(top, bottom, half, predictor);
        let ab = advance(bottom, top, half, predictor);
        assert(at + ab <= s) by (nonlinear_arith)
            requires
                s > 0,
                tt <= s,
                tb <= s,
                s * s * at + s * s * ab <= s * (tt * tb),
        {
            assert(tt * tb <= s * s);
            assert(s * (tt * tb) <= s * (s * s));
            assert(s * s * (at + ab) <= s * s * s);
        }
    }
}

/// Where every pair of the first round has an entrant, the chances of the
/// bracket add up to one, but for what rounding took: at most [`slack`].
pub proof fn lemma_total_nearly_one<P: Predictor>(bracket: Seq<Option<i32>>, predictor: &P)
    requires
        is_bracket_size(bracket.len() as int),
        no_empty_pair(bracket),
    ensures
        SCALE - slack(bracket.len()) <= total_chance(bracket, bracket.len(), predictor) <= SCALE,
    decreases bracket.len(),
{
    let len = bracket.len();
    lemma_total_at_most_one(bracket, predictor);
    if len == 2 {
        reveal_with_fuel(total_chance, 3);
        assert(pair_has_entrant(bracket, 0));
        lemma_contest_pair(bracket[0], bracket[1], predictor);
    } else {
        lemma_half_of_power(len as int);
        let half = len / 2;
        lemma_half_of_power(half as int);
        let top = bracket.subrange(0, half as int);
        let bottom = bracket.subrange(half as int, len as int);
        assert(no_empty_pair(top)) by {
            assert forall|k: int| 0 <= k < top.len() / 2 implies #[trigger] pair_has_entrant(top, k) by {
                assert(pair_has_entrant(bracket, k));
            }
        }
        assert(no_empty_pair(bottom)) by {
            assert forall|k: int| 0 <= k < bottom.len() / 2 implies #[trigger] pair_has_entrant(
                bottom,
                k,
            ) by {
                assert(pair_has_entrant(bracket, k + half / 2));
            }
        }
        lemma_total_nearly_one(top, predictor);
        lemma_total_nearly_one(bottom, predictor);
        lemma_total_of_halves(bracket, half, predictor);
        lemma_advance_rounding(top, bottom, half, predictor);
        lemma_advance_rounding(bottom, top, half, predictor);
        lemma_raw_shares(top, bottom, half, half, predictor);
        let s = SCALE as nat;
        let e = slack(half);
        let tt = total_chance(top, half, predictor);
        let tb = total_chance(bottom, half, predictor);
        let at = advance(top, bottom, half, predictor);
        let ab = advance(bottom, top, half, predictor);
        assert(slack(len) == 2 * e + 4 * half);
        if 2 * e + 4 * half <= s {
            assert(at + ab >= s - 2 * e - 4 * half) by (nonlinear_arith)
                requires
                    s > 0,
                    2 * e + 4 * half <= s,
                    s - e <= tt <= s,
                    s - e <= tb <= s,
                    s * (tt * tb) <= s * s * at + half * (s * s) + half * s * tt + s * s * ab + half
                        * (s * s) + half * s * tb,
            {
                assert((s - e) * (s - e) <= tt * tb);
                assert(s * s - 2 * (s * e) <= (s - e) * (s - e));
                assert(half * s * tt <= half * s * s);
                assert(half * s * tb <= half * s * s);
                assert(s * (s * s - 2 * (s * e)) <= s * (tt * tb));
                assert(s * (s * s - 2 * (s * e)) <= s * s * (at + ab) + 4 * (half * (s * s)));
                assert(s * s * (s - 2 * e - 4 * half) <= s * s * (at + ab));
            }
        }
    }
}

/// No place has a chance of more than one.
pub proof fn lemma_win_chance_bounded<P: Predictor>(bracket: Seq<Option<i32>>, i: int, predictor: &P)
    requires
        is_bracket_size(bracket.len() as int),
        0 <= i < bracket.len(),
    ensures
        win_chance(bracket, i, predictor) <= SCALE,
{
    lemma_total_at_most_one(bracket, predictor);
    lemma_total_grows(bracket, (i + 1) as nat, bracket.len(), predictor);
}

/// The chance to win the final is no more than the chance that anybody of
/// the other half gets there: at most one.
pub proof fn lemma_final_chance_bounded<P: Predictor>(
    me: Option<i32>,
    others: Seq<Option<i32>>,
    count: nat,
    predictor: &P,
)
    requires
        is_bracket_size(others.len() as int),
        count <= others.len(),
    ensures
        final_chance(me, others, count, predictor) <= total_chance(others, count, predictor),
        final_chance(me, others, count, predictor) <= SCALE,
    decreases count,
{
    lemma_total_at_most_one(others, predictor);
    lemma_total_grows(others, count, others.len(), predictor);
    if count > 0 {
        lemma_final_chance_bounded(me, others, (count - 1) as nat, predictor);
        lemma_contest_pair(me, others[count - 1], predictor);
        lemma_win_chance_bounded(others, count - 1, predictor);
        lemma_scaled_bounded(
            contest_chance(me, others[count - 1], predictor),
            win_chance(others, count - 1, predictor),
        );
    }
}

/// Each place has a share of the total.
proof fn lemma_share_of_total<P: Predictor>(bracket: Seq<Option<i32>>, i: int, count: nat, predictor: &P)
    requires
        0 <= i < count,
    ensures
        win_chance(bracket, i, predictor) <= total_chance(bracket, count, predictor),
{
    lemma_total_grows(bracket, (i + 1) as nat, count, predictor);
}

/// Against a half that nobody wins, no final is won.
proof fn lemma_final_against_nobody<P: Predictor>(
    me: Option<i32>,
    others: Seq<Option<i32>>,
    count: nat,
    predictor: &P,
)
    requires
        count <= others.len(),
        total_chance(others, others.len(), predictor) == 0,
    ensures
        final_chance(me, others, count, predictor) == 0,
    decreases count,
{
    if count > 0 {
        lemma_final_against_nobody(me, others, (count - 1) as nat, predictor);
        lemma_share_of_total(others, count - 1, others.len(), predictor);
        lemma_scaled_zero(contest_chance(me, others[count - 1], predictor));
    }
}

/// Where one of the two halves is won by nobody, nobody advances from
/// either.
proof fn lemma_nobody_advances<P: Predictor>(
    own: Seq<Option<i32>>,
    others: Seq<Option<i32>>,
    count: nat,
    predictor: &P,
)
    requires
        count <= own.len(),
        total_chance(own, own.len(), predictor) == 0 || total_chance(others, others.len(), predictor)
            == 0,
    ensures
        advance(own, others, count, predictor) == 0,
    decreases count,
{
    if count > 0 {
        lemma_nobody_advances(own, others, (count - 1) as nat, predictor);
        let in_final = final_chance(own[count - 1], others, others.len(), predictor);
        if total_chance(own, own.len(), predictor) == 0 {
            lemma_share_of_total(own, count - 1, own.len(), predictor);
            lemma_scaled_zero(in_final);
        } else {
            lemma_final_against_nobody(own[count - 1], others, others.len(), predictor);
            lemma_scaled_zero(win_chance(own, count - 1, predictor));
        }
    }
}

/// A pair of byes in the first round leaves the bracket without a winner:
/// nobody can win the round in which the winner of that pair is due, so all
/// chances are none.
pub proof fn lemma_empty_pair_voids<P: Predictor>(bracket: Seq<Option<i32>>, k: int, predictor: &P)
    requires
        is_bracket_size(bracket.len() as int),
        0 <= k < bracket.len() / 2,
        !pair_has_entrant(bracket, k),
    ensures
        total_chance(bracket, bracket.len(), predictor) == 0,
    decreases bracket.len(),
{
    let len = bracket.len();
    if len == 2 {
        reveal_with_fuel(total_chance, 3);
        lemma_contest_pair(bracket[0], bracket[1], predictor);
    } else {
        lemma_half_of_power(len as int);
        let half = len / 2;
        lemma_half_of_power(half as int);
        let top = bracket.subrange(0, half as int);
        let bottom = bracket.subrange(half as int, len as int);
        if 2 * k < half {
            assert(!pair_has_entrant(top, k));
            lemma_empty_pair_voids(top, k, predictor);
        } else {
            assert(!pair_has_entrant(bottom, k - half / 2));
            lemma_empty_pair_voids(bottom, k - half / 2, predictor);
        }
        lemma_nobody_advances(top, bottom, half, predictor);
        lemma_nobody_advances(bottom, top, half, predictor);
        lemma_total_of_halves(bracket, half, predictor);
    }
}

/// The chances of the entrants among the first `count` places of `bracket`,
/// added up.
pub open spec fn entrants_chance<P: Predictor>(bracket: Seq<Option<i32>>, count: nat, predictor: &P) -> nat
    decreases count,
{
    if count == 0 {
        0
    } else if bracket[count - 1] is Some {
        entrants_chance(bracket, (count - 1) as nat, predictor) + win_chance(bracket, count - 1, predictor)
    } else {
        entrants_chance(bracket, (count - 1) as nat, predictor)
    }
}

/// Byes add nothing: the chances of the entrants are the chances of all
/// places.
pub proof fn lemma_byes_add_nothing<P: Predictor>(bracket: Seq<Option<i32>>, count: nat, predictor: &P)
    requires
        is_bracket_size(bracket.len() as int),
        count <= bracket.len(),
    ensures
        entrants_chance(bracket, count, predictor) == total_chance(bracket, count, predictor),
    decreases count,
{
    if count > 0 {
        lemma_byes_add_nothing(bracket, (count - 1) as nat, predictor);
        if bracket[count - 1] is None {
            lemma_bye_never_wins(bracket, count - 1, predictor);
        }
    }
}

/// Rounding costs a bracket of up to `2^rounds` places at most two parts for
/// each place in every round but the first.
pub proof fn lemma_slack_bounded(len: nat, rounds: nat)
    requires
        rounds >= 1,
        len <= pow2(rounds),
    ensures
        slack(len) <= 2 * (rounds - 1) * len,
    decreases rounds,
{
    if len > 2 {
        if rounds == 1 {
            lemma2_to64();
        } else {
            lemma_pow2_unfold(rounds);
            lemma_slack_bounded(len / 2, (rounds - 1) as nat);
            let half = len / 2;
            assert(2 * (2 * (rounds - 2) * half) + 2 * len <= 2 * (rounds - 1) * len) by (nonlinear_arith)
                requires
                    2 * half <= len,
                    rounds >= 2,
            ;
        }
    } else {
        assert(0 <= 2 * (rounds - 1) * len) by (nonlinear_arith)
            requires
                rounds >= 1,
        ;
    }
}

/// Exactly one entrant wins: in a bracket of no more than `2^37` places whose
/// every first-round pair has an entrant, the chances of the entrants add up
/// to one, within a hundred-thousandth.
///
/// Without a bound on the length this does not hold of chances that are
/// whole parts of [`SCALE`]: among `2^60` entrants of one strength each has
/// less than one part to win, which is rounded down to none.
pub proof fn lemma_one_winner<P: Predictor>(bracket: Seq<Option<i32>>, predictor: &P)
    requires
        is_bracket_size(bracket.len() as int),
        bracket.len() <= 0x20_0000_0000,
        no_empty_pair(bracket),
    ensures
        entrants_chance(bracket, bracket.len(), predictor) <= SCALE,
        (SCALE - entrants_chance(bracket, bracket.len(), predictor)) * 100_000 <= SCALE,
{
    lemma_byes_add_nothing(bracket, bracket.len(), predictor);
    lemma_total_nearly_one(bracket, predictor);
    lemma2_to64();
    lemma_pow2_adds(32, 5);
    lemma_slack_bounded(bracket.len(), 37);
    assert(2 * (37 - 1) * bracket.len() == 72 * bracket.len()) by (nonlinear_arith);
}

} // verus!
