//! Entrants, the tournament's description, and the bracket that is built from
//! them.

use crate::util::{find_next_power_of_2, is_power_of_2, is_power_of_two, next_power_of_two, top_power_of_two};
use vstd::prelude::*;

verus! {

/// One entrant: a name, a rating and the place in the draw, counted from 1.
#[derive(Clone, Debug, PartialEq, Eq)]
pub struct Player {
    pub name: String,
    pub elo: i32,
    pub draw: usize,
}

/// A [`Player`] as the contracts see it.
pub struct Entrant {
    pub name: Seq<char>,
    pub elo: i32,
    pub draw: usize,
}

impl View for Player {
    type V = Entrant;

    open spec fn view(&self) -> Entrant {
        Entrant { name: self.name@, elo: self.elo, draw: self.draw }
    }
}

/// How a tournament is played.
#[derive(Clone, Copy, Debug, PartialEq, Eq, Structural)]
pub enum TournamentStructure {
    SingleElimination,
    DoubleElimination,
}

/// What the configuration says of the tournament. `size` is the number of
/// places of the bracket, where the configuration names one.
#[derive(Clone, Copy, Debug, PartialEq, Eq)]
pub struct TournamentInfo {
    pub structure: TournamentStructure,
    pub size: Option<usize>,
}

/// Why no bracket could be made.
#[derive(Clone, Copy, Debug, PartialEq, Eq, Structural)]
pub enum LoadError {
    /// The text nests its values too deeply to be parsed.
    TooDeep,
    /// The text is no TOML document.
    Syntax,
    /// The document has no table `Players`.
    NoPlayers,
    /// A player lacks an integer `draw` or an integer `elo`, or the rating
    /// does not fit in 32 bits.
    InvalidPlayer,
    /// The tournament's `size` is not an integer.
    SizeNotInteger,
    /// The tournament's size is not a power of two greater than 1.
    InvalidSize,
    /// The tournament's `structure` is a string that names no structure.
    UnknownStructure,
    /// There are more entrants than the largest bracket has places.
    TooManyEntrants,
    /// Fewer than two entrants, and no size configured.
    BracketTooSmall,
    /// A draw position is 0 or beyond the bracket.
    DrawOutOfRange,
    /// Two entrants have the same draw position.
    DuplicateDraw,
}

/// The entrants as the contracts see them.
pub open spec fn entrants_of(players: Seq<Player>) -> Seq<Entrant> {
    players.map_values(|player: Player| player@)
}

/// A bracket as the contracts see it: for each place its entrant, or `None`
/// for a bye.
pub open spec fn slots(places: Seq<Option<Player>>) -> Seq<Option<Entrant>> {
    places.map_values(
        |place: Option<Player>|
            match place {
                Some(player) => Some(player@),
                None => None,
            },
    )
}

/// A length that a bracket can have: a power of two, and at least 2.
pub open spec fn is_bracket_size(size: int) -> bool {
    size >= 2 && is_power_of_two(size)
}

/// The number of places of the bracket for `count` entrants: the configured
/// size where there is one, else the least power of two that holds them all.
pub open spec fn bracket_size(count: nat, configured: Option<usize>) -> Result<nat, LoadError> {
    match configured {
        Some(size) => if is_bracket_size(size as int) {
            Ok(size as nat)
        } else {
            Err(LoadError::InvalidSize)
        },
        None => if count > top_power_of_two() {
            Err(LoadError::TooManyEntrants)
        } else if count < 2 {
            Err(LoadError::BracketTooSmall)
        } else {
            Ok(next_power_of_two(count as int) as nat)
        },
    }
}

/// Among the first `count` entrants, the one drawn at `position` (the last
/// such one, should there be several).
pub open spec fn drawn_at(entrants: Seq<Entrant>, count: nat, position: int) -> Option<Entrant>
    decreases count,
{
    if count == 0 {
        None
    } else if entrants[count - 1].draw == position {
        Some(entrants[count - 1])
    } else {
        drawn_at(entrants, (count - 1) as nat, position)
    }
}

/// What is wrong with the draw of the first `count` entrants in a bracket of
/// `size` places. The first entrant, in order, whose position lies outside the
/// bracket or is already taken decides.
pub open spec fn first_fault(entrants: Seq<Entrant>, size: nat, count: nat) -> Option<LoadError>
    decreases count,
{
    if count == 0 {
        None
    } else {
        let earlier = first_fault(entrants, size, (count - 1) as nat);
        let position = entrants[count - 1].draw;
        if earlier is Some {
            earlier
        } else if position < 1 || position > size {
            Some(LoadError::DrawOutOfRange)
        } else if drawn_at(entrants, (count - 1) as nat, position as int) is Some {
            Some(LoadError::DuplicateDraw)
        } else {
            None
        }
    }
}

/// The bracket of `size` places in which the first `count` entrants sit at
/// their draw positions.
pub open spec fn seated(entrants: Seq<Entrant>, size: nat, count: nat) -> Seq<Option<Entrant>> {
    Seq::new(size, |place: int| drawn_at(entrants, count, place + 1))
}

/// The bracket that the entrants make, or the reason why they make none.
pub open spec fn bracket_of(entrants: Seq<Entrant>, configured: Option<usize>) -> Result<
    Seq<Option<Entrant>>,
    LoadError,
> {
    match bracket_size(entrants.len(), configured) {
        Err(error) => Err(error),
        Ok(size) => match first_fault(entrants, size, entrants.len()) {
            Some(error) => Err(error),
            None => Ok(seated(entrants, size, entrants.len())),
        },
    }
}

/// Whether an outcome is the expected one: the same error, or a bracket with
/// the expected entrants and byes.
pub open spec fn yields(
    outcome: Result<Vec<Option<Player>>, LoadError>,
    expected: Result<Seq<Option<Entrant>>, LoadError>,
) -> bool {
    match (outcome, expected) {
        (Ok(places), Ok(model)) => slots(places@) == model,
        (Err(error), Err(fault)) => error == fault,
        _ => false,
    }
}

/// No fault means: every position lies in the bracket, and no two entrants
/// share one.
pub proof fn lemma_faultless_draw(entrants: Seq<Entrant>, size: nat, count: nat)
    requires
        count <= entrants.len(),
    ensures
        first_fault(entrants, size, count) is None <==> {
            &&& forall|i: int| 0 <= i < count ==> 1 <= (#[trigger] entrants[i]).draw <= size
            &&& forall|i: int, j: int|
                0 <= i < j < count ==> (#[trigger] entrants[i]).draw != (#[trigger] entrants[j]).draw
        },
    decreases count,
{
    if count > 0 {
        let before = (count - 1) as nat;
        lemma_faultless_draw(entrants, size, before);
        lemma_drawn_at(entrants, before, entrants[count - 1].draw as int);
    }
}

/// A position is taken exactly when one of the entrants has it, and then by
/// an entrant who has it.
pub proof fn lemma_drawn_at(entrants: Seq<Entrant>, count: nat, position: int)
    requires
        count <= entrants.len(),
    ensures
        drawn_at(entrants, count, position) is Some <==> exists|i: int|
            0 <= i < count && (#[trigger] entrants[i]).draw == position,
        drawn_at(entrants, count, position) matches Some(entrant) ==> entrant.draw == position
            && exists|i: int| 0 <= i < count && #[trigger] entrants[i] == entrant,
    decreases count,
{
    if count > 0 {
        lemma_drawn_at(entrants, (count - 1) as nat, position);
    }
}

/// In a faultless draw every entrant sits at the place of its position.
pub proof fn lemma_everyone_seated(entrants: Seq<Entrant>, size: nat, i: int)
    requires
        0 <= i < entrants.len(),
        first_fault(entrants, size, entrants.len()) is None,
    ensures
        1 <= entrants[i].draw <= size,
        seated(entrants, size, entrants.len())[entrants[i].draw - 1] == Some(entrants[i]),
{
    lemma_faultless_draw(entrants, size, entrants.len());
    lemma_only_holder(entrants, entrants.len(), i);
}

/// Where no two of the first `count` entrants share a position, the one
/// drawn at an entrant's position is that entrant.
proof fn lemma_only_holder(entrants: Seq<Entrant>, count: nat, i: int)
    requires
        0 <= i < count <= entrants.len(),
        forall|a: int, b: int|
            0 <= a < b < count ==> (#[trigger] entrants[a]).draw != (#[trigger] entrants[b]).draw,
    ensures
        drawn_at(entrants, count, entrants[i].draw as int) == Some(entrants[i]),
    decreases count,
{
    if i < count - 1 {
        lemma_only_holder(entrants, (count - 1) as nat, i);
    }
}

/// A copy of a player.
fn duplicate(player: &Player) -> (copy: Player)
    ensures
        copy == *player,
{
    Player { name: player.name.clone(), elo: player.elo, draw: player.draw }
}

/// A bracket of `size` byes.
fn empty_bracket(size: usize) -> (places: Vec<Option<Player>>)
    ensures
        places@.len() == size,
        forall|i: int| 0 <= i < size ==> places@[i] is None,
{
    let mut places: Vec<Option<Player>> = Vec::new();
    while places.len() < size
        invariant
            places@.len() <= size,
            forall|i: int| 0 <= i < places@.len() ==> places@[i] is None,
        decreases size - places@.len(),
    {
        places.push(None);
    }
    places
}

/// Builds the bracket: as many places as the tournament's size says or, where
/// it names none, the least power of two that holds all entrants; each entrant
/// at the place before its draw position; byes elsewhere.
///
/// Fails where the size is no power of two greater than 1, where fewer than
/// two entrants come without a size, and where a draw position lies outside
/// the bracket or is taken twice.
pub fn build_bracket(entrants: &Vec<Player>, info: &TournamentInfo) -> (outcome: Result<Vec<Option<Player>>, LoadError>)
    ensures
        yields(outcome, bracket_of(entrants_of(entrants@), info.size)),
        outcome matches Ok(places) ==> is_bracket_size(places@.len() as int),
{
    let count = entrants.len();
    let size = match info.size {
        Some(size) => {
            if size > 1 && is_power_of_2(size) {
                size
            } else {
                return Err(LoadError::InvalidSize);
            }
        },
        None => {
            if count > usize::MAX / 2 + 1 {
                return Err(LoadError::TooManyEntrants);
            }
            if count < 2 {
                return Err(LoadError::BracketTooSmall);
            }
            find_next_power_of_2(count)
        },
    };
    let ghost model = entrants_of(entrants@);
    let mut places = empty_bracket(size);
    let mut i: usize = 0;
    assert(slots(places@) =~= seated(model, size as nat, 0));
    while i < count
        invariant
            i <= count == entrants@.len(),
            model == entrants_of(entrants@),
            places@.len() == size,
            is_bracket_size(size as int),
            bracket_size(count as nat, info.size) == Ok::<nat, LoadError>(size as nat),
            first_fault(model, size as nat, i as nat) is None,
            slots(places@) == seated(model, size as nat, i as nat),
        decreases count - i,
    {
        let player = &entrants[i];
        assert(model[i as int] == player@);
        if player.draw < 1 || player.draw > size {
            proof {
                assert(first_fault(model, size as nat, (i + 1) as nat) == Some(LoadError::DrawOutOfRange));
                lemma_fault_stays(model, size as nat, (i + 1) as nat, count as nat);
            }
            return Err(LoadError::DrawOutOfRange);
        }
        let index = player.draw - 1;
        assert(slots(places@)[index as int] is Some <==> places@[index as int] is Some);
        if places[index].is_some() {
            proof {
                assert(first_fault(model, size as nat, (i + 1) as nat) == Some(LoadError::DuplicateDraw));
                lemma_fault_stays(model, size as nat, (i + 1) as nat, count as nat);
            }
            return Err(LoadError::DuplicateDraw);
        }
        let ghost before = places@;
        places.set(index, Some(duplicate(player)));
        i += 1;
        assert forall|place: int| 0 <= place < size implies slots(places@)[place] == seated(
            model,
            size as nat,
            i as nat,
        )[place] by {
            assert(seated(model, size as nat, (i - 1) as nat)[place] == slots(before)[place]);
        }
        assert(slots(places@) =~= seated(model, size as nat, i as nat));
    }
    Ok(places)
}

/// A fault among the first entrants remains the fault when more follow.
proof fn lemma_fault_stays(entrants: Seq<Entrant>, size: nat, count: nat, more: nat)
    requires
        count <= more,
        first_fault(entrants, size, count) is Some,
    ensures
        first_fault(entrants, size, more) == first_fault(entrants, size, count),
    decreases more,
{
    if count < more {
        lemma_fault_stays(entrants, size, count, (more - 1) as nat);
    }
}

} // verus!
