//! The chance of each place of a bracket to win the tournament.
//!
//! A bracket of two places is one contest. A longer bracket is two halves:
//! whoever wins the tournament wins the own half first, and then the final
//! against whoever won the other half. The chance of a place is therefore the
//! chance to win the own half, times the sum, over the places of the other
//! half, of the chance to beat that place's entrant weighted by that
//! entrant's chance to win the other half. Products are rounded down to whole
//! parts of [`SCALE`].

use crate::bracket::{is_bracket_size, slots, Entrant, Player};
use crate::predictor::{scaled, Predictor, SCALE};
use crate::totals::{lemma_bye_never_wins, lemma_final_chance_bounded, lemma_win_chance_bounded};
use crate::util::lemma_half_of_power;
use vstd::prelude::*;

verus! {

/// What the engine reads of a bracket: for each place the rating of its
/// entrant, or `None` for a bye.
pub open spec fn ratings(bracket: Seq<Option<Entrant>>) -> Seq<Option<i32>> {
    bracket.map_values(
        |place: Option<Entrant>|
            match place {
                Some(entrant) => Some(entrant.elo),
                None => None,
            },
    )
}

/// The chance that the occupant of one place beats the occupant of another:
/// none for a bye, one against a bye, else what the predictor says.
pub open spec fn contest_chance<P: Predictor>(p: Option<i32>, q: Option<i32>, predictor: &P) -> nat {
    match (p, q) {
        (None, _) => 0,
        (Some(_), None) => SCALE as nat,
        (Some(rating), Some(opponent)) => predictor.chance(rating, opponent),
    }
}

/// The chance that place `i` of `bracket` wins it. `bracket` has a power of
/// two as its length, and at least two places.
pub open spec fn win_chance<P: Predictor>(bracket: Seq<Option<i32>>, i: int, predictor: &P) -> nat
    decreases bracket.len(), 0nat,
{
    let half = (bracket.len() / 2) as int;
    if bracket.len() <= 2 {
        contest_chance(bracket[i], bracket[1 - i], predictor)
    } else if i < half {
        let own = bracket.subrange(0, half);
        let others = bracket.subrange(half, bracket.len() as int);
        scaled(win_chance(own, i, predictor), final_chance(bracket[i], others, half as nat, predictor))
    } else {
        let own = bracket.subrange(half, bracket.len() as int);
        let others = bracket.subrange(0, half);
        scaled(
            win_chance(own, i - half, predictor),
            final_chance(bracket[i], others, half as nat, predictor),
        )
    }
}

/// The chance of `me` to win a final against whoever wins `others`, as far as
/// the first `count` places of `others` contribute to it.
pub open spec fn final_chance<P: Predictor>(
    me: Option<i32>,
    others: Seq<Option<i32>>,
    count: nat,
    predictor: &P,
) -> nat
    decreases others.len(), count + 1,
{
    if count == 0 {
        0
    } else {
        final_chance(me, others, (count - 1) as nat, predictor) + scaled(
            contest_chance(me, others[count - 1], predictor),
            win_chance(others, count - 1, predictor),
        )
    }
}

/// The chances of the first `count` places of `bracket`, added up.
pub open spec fn total_chance<P: Predictor>(bracket: Seq<Option<i32>>, count: nat, predictor: &P) -> nat
    decreases count,
{
    if count == 0 {
        0
    } else {
        total_chance(bracket, (count - 1) as nat, predictor) + win_chance(bracket, count - 1, predictor)
    }
}

/// The rating at a place.
pub open spec fn rating_of(place: Option<Player>) -> Option<i32> {
    match place {
        Some(player) => Some(player.elo),
        None => None,
    }
}

/// The ratings at the places `start`, .. of `players`, `len` of them.
pub open spec fn ratings_in(players: Seq<Option<Player>>, start: int, len: int) -> Seq<Option<i32>> {
    ratings(slots(players)).subrange(start, start + len)
}

/// What is known of the two halves of the `2 * half` places from `start` on
/// once the chances within each half are computed: `top` and `bottom` hold
/// them.
pub open spec fn halves_known<P: Predictor>(
    players: Seq<Option<Player>>,
    start: int,
    half: int,
    top: Seq<u64>,
    bottom: Seq<u64>,
    predictor: &P,
) -> bool {
    let bracket = ratings_in(players, start, 2 * half);
    let own = ratings_in(players, start, half);
    let others = ratings_in(players, start + half, half);
    &&& half >= 2
    &&& is_bracket_size(half)
    &&& 0 <= start
    &&& start + 2 * half <= players.len() <= usize::MAX
    &&& top.len() == half
    &&& bottom.len() == half
    &&& bracket.subrange(0, half) == own
    &&& bracket.subrange(half, 2 * half) == others
    &&& forall|k: int| 0 <= k < half ==> top[k] == win_chance(own, k, predictor)
    &&& forall|k: int| 0 <= k < half ==> bottom[k] == win_chance(others, k, predictor)
}

/// The chance that the occupant of place `p` beats the occupant of place `q`.
///
/// A bye never wins. Against a bye, an entrant always wins. Two entrants are
/// left to the predictor.
pub fn contest<P: Predictor>(p: &Option<Player>, q: &Option<Player>, predictor: &P) -> (chance: u64)
    ensures
        chance == contest_chance(rating_of(*p), rating_of(*q), predictor),
        chance <= SCALE,
        p is None ==> chance == 0,
        p is Some && q is None ==> chance == SCALE,
{
    match p {
        None => 0,
        Some(player) => match q {
            None => SCALE,
            Some(opponent) => {
                proof {
                    predictor.lemma_one_wins(player.elo, opponent.elo);
                }
                predictor.predict(player.elo, opponent.elo)
            },
        },
    }
}

/// The product of two chances, rounded down.
fn product(a: u64, b: u64) -> (c: u64)
    requires
        a <= SCALE,
        b <= SCALE,
    ensures
        c == scaled(a as nat, b as nat),
        c <= a,
        c <= b,
{
    assert(a * b <= SCALE * SCALE && a * b / (SCALE as int) <= a && a * b / (SCALE as int) <= b)
        by (nonlinear_arith)
        requires
            a <= SCALE,
            b <= SCALE,
            SCALE > 0,
    ;
    ((a as u128) * (b as u128) / (SCALE as u128)) as u64
}

/// The chance of the occupant of place `me` to win a final against whoever
/// wins the `chances.len()` places from `start` on, whose chances to win
/// among themselves are `chances`.
fn final_of<P: Predictor>(
    players: &[Option<Player>],
    me: usize,
    start: usize,
    chances: &Vec<u64>,
    predictor: &P,
) -> (chance: u64)
    requires
        me < players@.len(),
        start + chances@.len() <= players@.len() <= usize::MAX,
        is_bracket_size(chances@.len() as int),
        forall|j: int|
            0 <= j < chances@.len() ==> chances@[j] == win_chance(
                ratings_in(players@, start as int, chances@.len() as int),
                j,
                predictor,
            ),
    ensures
        chance == final_chance(
            rating_of(players@[me as int]),
            ratings_in(players@, start as int, chances@.len() as int),
            chances@.len() as nat,
            predictor,
        ),
        chance <= SCALE,
{
    let count = chances.len();
    let ghost others = ratings_in(players@, start as int, count as int);
    let ghost mine = rating_of(players@[me as int]);
    let mut chance: u64 = 0;
    let mut j: usize = 0;
    while j < count
        invariant
            j <= count == chances@.len(),
            me < players@.len(),
            start + count <= players@.len() <= usize::MAX,
            is_bracket_size(count as int),
            others == ratings_in(players@, start as int, count as int),
            mine == rating_of(players@[me as int]),
            forall|j: int| 0 <= j < count ==> chances@[j] == win_chance(others, j, predictor),
            chance == final_chance(mine, others, j as nat, predictor),
            chance <= SCALE,
        decreases count - j,
    {
        let head_to_head = contest(&players[me], &players[start + j], predictor);
        proof {
            assert(others[j as int] == rating_of(players@[start + j]));
            lemma_win_chance_bounded(others, j as int, predictor);
            lemma_final_chance_bounded(mine, others, (j + 1) as nat, predictor);
        }
        chance = chance + product(head_to_head, chances[j]);
        j += 1;
    }
    chance
}

/// The chances of the `len` places from `start` on to win among themselves.
fn chances_within<P: Predictor>(
    players: &[Option<Player>],
    start: usize,
    len: usize,
    predictor: &P,
) -> (chances: Vec<u64>)
    requires
        is_bracket_size(len as int),
        start + len <= players@.len() <= usize::MAX,
    ensures
        chances@.len() == len,
        forall|i: int|
            0 <= i < len ==> chances@[i] == win_chance(
                ratings_in(players@, start as int, len as int),
                i,
                predictor,
            ),
    decreases len,
{
    let ghost bracket = ratings_in(players@, start as int, len as int);
    let mut chances: Vec<u64> = Vec::new();
    if len == 2 {
        assert(bracket[0] == rating_of(players@[start as int]));
        assert(bracket[1] == rating_of(players@[start + 1]));
        chances.push(contest(&players[start], &players[start + 1], predictor));
        chances.push(contest(&players[start + 1], &players[start], predictor));
        return chances;
    }
    let half = len / 2;
    proof {
        lemma_half_of_power(len as int);
    }
    let top = chances_within(players, start, half, predictor);
    let bottom = chances_within(players, start + half, half, predictor);
    let ghost own = ratings_in(players@, start as int, half as int);
    let ghost others = ratings_in(players@, start + half, half as int);
    assert(bracket.subrange(0, half as int) =~= own);
    assert(bracket.subrange(half as int, len as int) =~= others);
    let mut i: usize = 0;
    while i < half
        invariant
            i <= half,
            halves_known(players@, start as int, half as int, top@, bottom@, predictor),
            bracket == ratings_in(players@, start as int, 2 * half),
            own == ratings_in(players@, start as int, half as int),
            others == ratings_in(players@, start + half, half as int),
            chances@.len() == i,
            forall|k: int| 0 <= k < i ==> chances@[k] == win_chance(bracket, k, predictor),
        decreases half - i,
    {
        let in_final = final_of(players, start + i, start + half, &bottom, predictor);
        proof {
            assert(bracket[i as int] == rating_of(players@[start + i]));
            lemma_win_chance_bounded(own, i as int, predictor);
        }
        chances.push(product(top[i], in_final));
        i += 1;
    }
    let mut i: usize = 0;
    while i < half
        invariant
            i <= half,
            halves_known(players@, start as int, half as int, top@, bottom@, predictor),
            bracket == ratings_in(players@, start as int, 2 * half),
            own == ratings_in(players@, start as int, half as int),
            others == ratings_in(players@, start + half, half as int),
            chances@.len() == half + i,
            forall|k: int| 0 <= k < half + i ==> chances@[k] == win_chance(bracket, k, predictor),
        decreases half - i,
    {
        let in_final = final_of(players, start + half + i, start, &top, predictor);
        proof {
            assert(bracket[half + i] == rating_of(players@[start + half + i]));
            lemma_win_chance_bounded(others, i as int, predictor);
        }
        chances.push(product(bottom[i], in_final));
        i += 1;
    }
    chances
}

/// The chance of the place `index` among the `len` places from `start` on to
/// win among them. The chances of the other half are computed once, for all
/// the finals that the place may have to play.
fn wins_within<P: Predictor>(
    players: &[Option<Player>],
    start: usize,
    len: usize,
    index: usize,
    predictor: &P,
) -> (chance: u64)
    requires
        is_bracket_size(len as int),
        start + len <= players@.len() <= usize::MAX,
        index < len,
    ensures
        chance == win_chance(ratings_in(players@, start as int, len as int), index as int, predictor),
        chance <= SCALE,
    decreases len,
{
    let ghost bracket = ratings_in(players@, start as int, len as int);
    proof {
        lemma_win_chance_bounded(bracket, index as int, predictor);
    }
    if len == 2 {
        assert(bracket[index as int] == rating_of(players@[start + index]));
        assert(bracket[1 - index] == rating_of(players@[start + 1 - index]));
        return contest(&players[start + index], &players[start + 1 - index], predictor);
    }
    let half = len / 2;
    proof {
        lemma_half_of_power(len as int);
        assert(bracket.subrange(0, half as int) =~= ratings_in(players@, start as int, half as int));
        assert(bracket.subrange(half as int, len as int) =~= ratings_in(
            players@,
            start + half,
            half as int,
        ));
        assert(bracket[index as int] == rating_of(players@[start + index]));
    }
    if index < half {
        let own = wins_within(players, start, half, index, predictor);
        let others = chances_within(players, start + half, half, predictor);
        let in_final = final_of(players, start + index, start + half, &others, predictor);
        product(own, in_final)
    } else {
        let own = wins_within(players, start + half, half, index - half, predictor);
        let others = chances_within(players, start, half, predictor);
        let in_final = final_of(players, start + index, start, &others, predictor);
        product(own, in_final)
    }
}

/// The chance of every place of the bracket to win the tournament, in parts
/// of [`SCALE`]. The chances of each half are computed once and used for
/// every place of the other half.
///
/// `players` is a bracket: its length is a power of two, and at least 2.
pub fn win_probabilities<P: Predictor>(players: &[Option<Player>], predictor: &P) -> (chances: Vec<u64>)
    requires
        is_bracket_size(players@.len() as int),
    ensures
        chances@.len() == players@.len(),
        forall|i: int|
            0 <= i < players@.len() ==> chances@[i] == win_chance(
                ratings(slots(players@)),
                i,
                predictor,
            ),
        forall|i: int| 0 <= i < players@.len() ==> chances@[i] <= SCALE,
        forall|i: int| 0 <= i < players@.len() && players@[i] is None ==> chances@[i] == 0,
{
    let len = players.len();
    let chances = chances_within(players, 0, len, predictor);
    proof {
        let bracket = ratings(slots(players@));
        assert(ratings_in(players@, 0, players@.len() as int) =~= bracket);
        assert forall|i: int| 0 <= i < players@.len() implies chances@[i] <= SCALE && (players@[i]
            is None ==> chances@[i] == 0) by {
            lemma_win_chance_bounded(bracket, i, predictor);
            if players@[i] is None {
                lemma_bye_never_wins(bracket, i, predictor);
            }
        }
    }
    chances
}

/// The chance of place `player_index` of the bracket to win the tournament,
/// in parts of [`SCALE`]; none where the place is a bye.
///
/// `players` is a bracket: its length is a power of two, and at least 2.
pub fn probability_wins<P: Predictor>(
    player_index: usize,
    players: &[Option<Player>],
    predictor: &P,
) -> (chance: u64)
    requires
        is_bracket_size(players@.len() as int),
        player_index < players@.len(),
    ensures
        chance == win_chance(ratings(slots(players@)), player_index as int, predictor),
        chance <= SCALE,
        players@[player_index as int] is None ==> chance == 0,
{
    let len = players.len();
    let chance = wins_within(players, 0, len, player_index, predictor);
    proof {
        let bracket = ratings(slots(players@));
        assert(ratings_in(players@, 0, len as int) =~= bracket);
        if players@[player_index as int] is None {
            lemma_bye_never_wins(bracket, player_index as int, predictor);
        }
    }
    chance
}

} // verus!
