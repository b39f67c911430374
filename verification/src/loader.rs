//! From the text of a tournament file to a bracket.
//!
//! The file is a TOML document. Its table `Players` has one table for each
//! entrant, keyed by the entrant's name, with the integers `elo` and `draw`.
//! A table `Tournament` may give an integer `size` and a string `structure`.

use crate::bracket::{
    bracket_of, build_bracket, entrants_of, is_bracket_size, yields, Entrant, LoadError, Player,
    TournamentInfo, TournamentStructure,
};
use crate::document::{
    document, entries_in, entries_of, entry, integer_of, lookup, node_of, parse, text_of, Node,
};
use crate::nesting::{is_shallow_text, shallow};
use crate::util::{is_power_of_2, is_power_of_two};
use vstd::prelude::*;

verus! {

/// What a table holds under one key, as far as the loader reads it.
#[derive(Clone, Debug, PartialEq, Eq)]
pub enum Setting {
    /// The table lacks the key.
    Absent,
    Integer(i64),
    Text(String),
    /// A value of any other type.
    Other,
}

/// A [`Setting`] as the contracts see it.
pub enum Field {
    Absent,
    Integer(i64),
    Text(Seq<char>),
    Other,
}

impl View for Setting {
    type V = Field;

    open spec fn view(&self) -> Field {
        match *self {
            Setting::Absent => Field::Absent,
            Setting::Integer(n) => Field::Integer(n),
            Setting::Text(text) => Field::Text(text@),
            Setting::Other => Field::Other,
        }
    }
}

/// What the loader reads of the value found under a key.
pub open spec fn field(found: Option<Node>) -> Field {
    match found {
        None => Field::Absent,
        Some(Node::Integer(n)) => Field::Integer(n),
        Some(Node::Text(text)) => Field::Text(text),
        Some(_) => Field::Other,
    }
}

/// The size that the configuration names: none where `size` is absent; an
/// integer only if it is a power of two greater than 1.
pub open spec fn configured_size(size: Field) -> Result<Option<usize>, LoadError> {
    match size {
        Field::Absent => Ok(None),
        Field::Integer(n) => if 1 < n <= usize::MAX && is_power_of_two(n as int) {
            Ok(Some(n as usize))
        } else {
            Err(LoadError::InvalidSize)
        },
        _ => Err(LoadError::SizeNotInteger),
    }
}

/// The structure that the configuration names. Single elimination is the
/// default, also where `structure` is no string.
pub open spec fn configured_structure(structure: Field) -> Result<TournamentStructure, LoadError> {
    match structure {
        Field::Text(name) => if name == "Double Elimination"@ {
            Ok(TournamentStructure::DoubleElimination)
        } else if name == "Single Elimination"@ {
            Ok(TournamentStructure::SingleElimination)
        } else {
            Err(LoadError::UnknownStructure)
        },
        _ => Ok(TournamentStructure::SingleElimination),
    }
}

/// The tournament that `size` and `structure` describe. A wrong size is
/// reported before a wrong structure.
pub open spec fn described(size: Field, structure: Field) -> Result<TournamentInfo, LoadError> {
    match configured_size(size) {
        Err(error) => Err(error),
        Ok(size) => match configured_structure(structure) {
            Err(error) => Err(error),
            Ok(structure) => Ok(TournamentInfo { structure, size }),
        },
    }
}

/// The tournament that the table `Tournament` describes; where the document
/// has none, or something else of that name, all defaults.
pub open spec fn section_info(section: Option<Node>) -> Result<TournamentInfo, LoadError> {
    match section {
        Some(node) => described(field(entry(node, "size"@)), field(entry(node, "structure"@))),
        None => described(Field::Absent, Field::Absent),
    }
}

/// The entrant of the given name. Both `draw` and `elo` must be integers, the
/// rating one of 32 bits; a position that no `usize` holds lies outside every
/// bracket.
pub open spec fn entrant_of(name: Seq<char>, draw: Field, elo: Field) -> Result<Entrant, LoadError> {
    match (draw, elo) {
        (Field::Integer(draw), Field::Integer(elo)) => if !(i32::MIN <= elo <= i32::MAX) {
            Err(LoadError::InvalidPlayer)
        } else if !(0 <= draw <= usize::MAX) {
            Err(LoadError::DrawOutOfRange)
        } else {
            Ok(Entrant { name, elo: elo as i32, draw: draw as usize })
        },
        _ => Err(LoadError::InvalidPlayer),
    }
}

/// The entrant that one entry of `Players` describes.
pub open spec fn entrant_of_entry(name: Seq<char>, data: Node) -> Result<Entrant, LoadError> {
    entrant_of(name, field(entry(data, "draw"@)), field(entry(data, "elo"@)))
}

/// The entrants that the first `count` entries of `Players` describe, in the
/// table's order, or what is wrong with the first entry that describes none.
pub open spec fn listed_entrants(entries: Seq<(Seq<char>, Node)>, count: nat) -> Result<
    Seq<Entrant>,
    LoadError,
>
    decreases count,
{
    if count == 0 {
        Ok(Seq::empty())
    } else {
        match listed_entrants(entries, (count - 1) as nat) {
            Err(error) => Err(error),
            Ok(entrants) => match entrant_of_entry(entries[count - 1].0, entries[count - 1].1) {
                Err(error) => Err(error),
                Ok(entrant) => Ok(entrants.push(entrant)),
            },
        }
    }
}

/// The bracket that a parsed document describes. The players are read first,
/// then the tournament, then the bracket is built.
pub open spec fn loaded_from(root: Node) -> Result<Seq<Option<Entrant>>, LoadError> {
    match entry(root, "Players"@) {
        Some(Node::Table(entries)) => match listed_entrants(entries, entries.len()) {
            Err(error) => Err(error),
            Ok(entrants) => match section_info(entry(root, "Tournament"@)) {
                Err(error) => Err(error),
                Ok(info) => bracket_of(entrants, info.size),
            },
        },
        _ => Err(LoadError::NoPlayers),
    }
}

/// The bracket that a text describes. A text that is not shallow is turned
/// down unparsed.
pub open spec fn loaded(text: &str) -> Result<Seq<Option<Entrant>>, LoadError> {
    if !is_shallow_text(text) {
        Err(LoadError::TooDeep)
    } else {
        match document(text@) {
            None => Err(LoadError::Syntax),
            Some(root) => loaded_from(root),
        }
    }
}

/// Checks the tournament's settings and fills in the defaults: no size, and
/// single elimination.
pub fn tournament_info(size: &Setting, structure: &Setting) -> (outcome: Result<TournamentInfo, LoadError>)
    ensures
        outcome == described(size@, structure@),
{
    let size = match size {
        Setting::Absent => None,
        Setting::Integer(n) => {
            let n: i64 = *n;
            if n <= 1 {
                return Err(LoadError::InvalidSize);
            }
            let wide: u64 = n as u64;
            if wide > usize::MAX as u64 {
                return Err(LoadError::InvalidSize);
            }
            let places: usize = wide as usize;
            if !is_power_of_2(places) {
                return Err(LoadError::InvalidSize);
            }
            Some(places)
        },
        _ => {
            return Err(LoadError::SizeNotInteger);
        },
    };
    let structure = match structure {
        Setting::Text(name) => {
            if *name == "Double Elimination".to_owned() {
                TournamentStructure::DoubleElimination
            } else if *name == "Single Elimination".to_owned() {
                TournamentStructure::SingleElimination
            } else {
                return Err(LoadError::UnknownStructure);
            }
        },
        _ => TournamentStructure::SingleElimination,
    };
    Ok(TournamentInfo { structure, size })
}

/// Makes an entrant of a name and the settings `draw` and `elo`.
pub fn entrant(name: String, draw: &Setting, elo: &Setting) -> (outcome: Result<Player, LoadError>)
    ensures
        match entrant_of(name@, draw@, elo@) {
            Ok(entrant) => outcome is Ok && outcome->Ok_0@ == entrant,
            Err(error) => outcome == Err::<Player, LoadError>(error),
        },
{
    match (draw, elo) {
        (Setting::Integer(draw), Setting::Integer(elo)) => {
            let draw: i64 = *draw;
            let elo: i64 = *elo;
            if elo < i32::MIN as i64 || elo > i32::MAX as i64 {
                return Err(LoadError::InvalidPlayer);
            }
            if draw < 0 || draw as u64 > usize::MAX as u64 {
                return Err(LoadError::DrawOutOfRange);
            }
            Ok(Player { name, elo: elo as i32, draw: draw as u64 as usize })
        },
        _ => Err(LoadError::InvalidPlayer),
    }
}

/// What `table` holds under `key`.
fn setting(table: &toml::Value, key: &str) -> (found: Setting)
    ensures
        found@ == field(entry(node_of(*table), key@)),
{
    match lookup(table, key) {
        None => Setting::Absent,
        Some(value) => match integer_of(value) {
            Some(n) => Setting::Integer(n),
            None => match text_of(value) {
                Some(text) => Setting::Text(text.to_owned()),
                None => Setting::Other,
            },
        },
    }
}

/// What the document found under `Tournament`, if anything, as a parsed
/// value.
pub open spec fn section_node(tournament_data: Option<&toml::Value>) -> Option<Node> {
    match tournament_data {
        Some(value) => Some(node_of(*value)),
        None => None,
    }
}

/// Reads the tournament's description from the table `Tournament` of a
/// document, or gives the defaults where the document has none.
pub fn parse_tournament_data(tournament_data: Option<&toml::Value>) -> (outcome: Result<TournamentInfo, LoadError>)
    ensures
        outcome == section_info(section_node(tournament_data)),
{
    match tournament_data {
        Some(table) => {
            let size = setting(table, "size");
            let structure = setting(table, "structure");
            tournament_info(&size, &structure)
        },
        None => tournament_info(&Setting::Absent, &Setting::Absent),
    }
}

/// Reads the entrants from the entries of the table `Players`.
fn read_players(listed: &Vec<(String, &toml::Value)>) -> (outcome: Result<Vec<Player>, LoadError>)
    ensures
        match listed_entrants(entries_in(listed@), listed@.len()) {
            Ok(entrants) => outcome is Ok && entrants_of(outcome->Ok_0@) == entrants,
            Err(error) => outcome == Err::<Vec<Player>, LoadError>(error),
        },
{
    let ghost entries = entries_in(listed@);
    let mut players: Vec<Player> = Vec::new();
    let mut i: usize = 0;
    while i < listed.len()
        invariant
            i <= listed@.len(),
            entries == entries_in(listed@),
            listed_entrants(entries, i as nat) is Ok,
            listed_entrants(entries, i as nat)->Ok_0 == entrants_of(players@),
        decreases listed@.len() - i,
    {
        let data: &toml::Value = listed[i].1;
        let draw = setting(data, "draw");
        let elo = setting(data, "elo");
        let ghost before = entrants_of(players@);
        match entrant(listed[i].0.clone(), &draw, &elo) {
            Err(error) => {
                proof {
                    lemma_listing_stops(entries, (i + 1) as nat, entries.len());
                }
                return Err(error);
            },
            Ok(player) => {
                players.push(player);
                assert(entrants_of(players@) =~= before.push(player@));
            },
        }
        i += 1;
    }
    Ok(players)
}

/// An entry that describes no entrant decides, whatever follows it.
proof fn lemma_listing_stops(entries: Seq<(Seq<char>, Node)>, count: nat, more: nat)
    requires
        count <= more,
        listed_entrants(entries, count) is Err,
    ensures
        listed_entrants(entries, more) == listed_entrants(entries, count),
    decreases more,
{
    if count < more {
        lemma_listing_stops(entries, count, (more - 1) as nat);
    }
}

/// Makes the bracket that a parsed document describes.
pub fn load(root: &toml::Value) -> (outcome: Result<Vec<Option<Player>>, LoadError>)
    ensures
        yields(outcome, loaded_from(node_of(*root))),
        outcome matches Ok(places) ==> is_bracket_size(places@.len() as int),
{
    let listed = match lookup(root, "Players") {
        None => {
            return Err(LoadError::NoPlayers);
        },
        Some(players) => match entries_of(players) {
            None => {
                return Err(LoadError::NoPlayers);
            },
            Some(listed) => listed,
        },
    };
    let players = read_players(&listed)?;
    let info = parse_tournament_data(lookup(root, "Tournament"))?;
    build_bracket(&players, &info)
}

/// Makes the bracket that the text of a tournament file describes. The text
/// is parsed only if it is shallow.
pub fn read_data(contents: &str) -> (outcome: Result<Vec<Option<Player>>, LoadError>)
    ensures
        yields(outcome, loaded(contents)),
        outcome matches Ok(places) ==> is_bracket_size(places@.len() as int),
{
    if !shallow(contents) {
        return Err(LoadError::TooDeep);
    }
    match parse(contents) {
        Err(_) => Err(LoadError::Syntax),
        Ok(root) => load(&root),
    }
}

} // verus!
